//! The command layer: validate a parsed frame as a typed command, and
//! execute a command against the store, producing the reply frame.

use vstd::prelude::*;
use vstd::string::StrSliceExecFns;
use vstd::string::StringSliceAdditionalSpecFns;

use crate::db::{
    bytes_eq, copy_bytes, expire_effect, lpush_step, lrange_slice, rpush_step, DataType, Db,
    EntryModel, StoreModel, ValueModel,
};
use crate::num::{i64_text_valid, parse_i64_text, parse_u64_text, text_value, u64_text_valid};
use crate::resp::{frame_model, lemma_models_of, models_of, FrameModel, RespValue};

verus! {

/// The typed, validated request: holding a `Command` is proof that
/// validation succeeded.
#[derive(Debug)]
pub enum Command {
    Ping,
    Echo(Vec<u8>),
    SetCmd(Vec<u8>, Vec<u8>, Option<u64>),
    Get(Vec<u8>),
    RPush(Vec<u8>, Vec<Vec<u8>>),
    LPush(Vec<u8>, Vec<Vec<u8>>),
    LRange(Vec<u8>, i64, i64),
    LLen(Vec<u8>),
}

/// The mathematical shape of a command.
pub enum CommandModel {
    Ping,
    Echo(Seq<u8>),
    SetCmd(Seq<u8>, Seq<u8>, Option<u64>),
    Get(Seq<u8>),
    RPush(Seq<u8>, Seq<Seq<u8>>),
    LPush(Seq<u8>, Seq<Seq<u8>>),
    LRange(Seq<u8>, int, int),
    LLen(Seq<u8>),
}

pub open spec fn command_model(c: Command) -> CommandModel {
    match c {
        Command::Ping => CommandModel::Ping,
        Command::Echo(m) => CommandModel::Echo(m@),
        Command::SetCmd(k, v, ttl) => CommandModel::SetCmd(k@, v@, ttl),
        Command::Get(k) => CommandModel::Get(k@),
        Command::RPush(k, vs) => CommandModel::RPush(k@, vs.deep_view()),
        Command::LPush(k, vs) => CommandModel::LPush(k@, vs.deep_view()),
        Command::LRange(k, a, b) => CommandModel::LRange(k@, a as int, b as int),
        Command::LLen(k) => CommandModel::LLen(k@),
    }
}

/// What holding a `Command` guarantees: a push carries at least one value.
pub open spec fn command_wf(c: Command) -> bool {
    match c {
        Command::RPush(k, vs) => vs@.len() >= 1,
        Command::LPush(k, vs) => vs@.len() >= 1,
        _ => true,
    }
}

pub open spec fn pong_msg() -> Seq<u8> {
    "PONG".spec_bytes()
}

pub open spec fn ok_msg() -> Seq<u8> {
    "OK".spec_bytes()
}

pub open spec fn wrong_type_msg() -> Seq<u8> {
    "WRONGTYPE Operation against a key holding the wrong kind of value".spec_bytes()
}

pub open spec fn array_msg() -> Seq<u8> {
    "Command must be an Array".spec_bytes()
}

pub open spec fn empty_msg() -> Seq<u8> {
    "Command cannot be empty".spec_bytes()
}

pub open spec fn name_msg() -> Seq<u8> {
    "Command name must be a string".spec_bytes()
}

pub open spec fn unknown_msg(name: Seq<u8>) -> Seq<u8> {
    "Unknown command: ".spec_bytes() + name
}

pub open spec fn echo_args_msg() -> Seq<u8> {
    "ERR wrong number of arguments for 'echo' command".spec_bytes()
}

pub open spec fn set_args_msg() -> Seq<u8> {
    "ERR wrong number of arguments for 'set' command".spec_bytes()
}

pub open spec fn get_args_msg() -> Seq<u8> {
    "ERR wrong number of arguments for 'get' command".spec_bytes()
}

pub open spec fn rpush_args_msg() -> Seq<u8> {
    "ERR wrong number of arguments for 'rpush' command".spec_bytes()
}

pub open spec fn lpush_args_msg() -> Seq<u8> {
    "ERR wrong number of arguments for 'lpush' command".spec_bytes()
}

pub open spec fn lrange_args_msg() -> Seq<u8> {
    "ERR wrong number of arguments for 'lrange' command".spec_bytes()
}

pub open spec fn llen_args_msg() -> Seq<u8> {
    "ERR wrong number of arguments for 'llen' command".spec_bytes()
}

pub open spec fn syntax_msg() -> Seq<u8> {
    "ERR syntax error".spec_bytes()
}

pub open spec fn not_int_msg() -> Seq<u8> {
    "ERR value is not an integer".spec_bytes()
}

pub open spec fn bulk_msg() -> Seq<u8> {
    "ERR value must be bulk string".spec_bytes()
}

pub open spec fn key_bulk_msg() -> Seq<u8> {
    "ERR key must be a bulk string".spec_bytes()
}

/// Copy a literal's bytes into a vector.
fn msg_bytes(s: &str) -> (r: Vec<u8>)
    ensures
        r@ == s.spec_bytes(),
{
    s.as_bytes_vec()
}

pub open spec fn upper_byte(b: u8) -> u8 {
    if 97 <= b && b <= 122 {
        (b - 32) as u8
    } else {
        b
    }
}

pub open spec fn upper_seq(s: Seq<u8>) -> Seq<u8> {
    s.map(|i: int, b: u8| upper_byte(b))
}

pub open spec fn lower_byte(b: u8) -> u8 {
    if 65 <= b && b <= 90 {
        (b + 32) as u8
    } else {
        b
    }
}

pub open spec fn lower_seq(s: Seq<u8>) -> Seq<u8> {
    s.map(|i: int, b: u8| lower_byte(b))
}

fn ascii_upper_bytes(s: &Vec<u8>) -> (r: Vec<u8>)
    ensures
        r@ == upper_seq(s@),
{
    let mut r: Vec<u8> = Vec::new();
    let mut i: usize = 0;
    while i < s.len()
        invariant
            i <= s@.len(),
            r@.len() == i,
            forall|j: int| 0 <= j < i ==> #[trigger] r@[j] == upper_byte(s@[j]),
        decreases s@.len() - i,
    {
        let b = s[i];
        if 97 <= b && b <= 122 {
            r.push(b - 32);
        } else {
            r.push(b);
        }
        i = i + 1;
    }
    assert(r@ =~= upper_seq(s@));
    r
}

fn ascii_lower_bytes(s: &Vec<u8>) -> (r: Vec<u8>)
    ensures
        r@ == lower_seq(s@),
{
    let mut r: Vec<u8> = Vec::new();
    let mut i: usize = 0;
    while i < s.len()
        invariant
            i <= s@.len(),
            r@.len() == i,
            forall|j: int| 0 <= j < i ==> #[trigger] r@[j] == lower_byte(s@[j]),
        decreases s@.len() - i,
    {
        let b = s[i];
        if 65 <= b && b <= 90 {
            r.push(b + 32);
        } else {
            r.push(b);
        }
        i = i + 1;
    }
    assert(r@ =~= lower_seq(s@));
    r
}

/// The payloads of a row of bulk strings, or nothing if another variant
/// occurs in it.
pub open spec fn bulks_of(items: Seq<FrameModel>) -> Option<Seq<Seq<u8>>>
    decreases items.len(),
{
    if items.len() == 0 {
        Some(Seq::empty())
    } else {
        match items[0] {
            FrameModel::BulkString(s) => match bulks_of(items.drop_first()) {
                Option::Some(r) => Some(seq![s] + r),
                Option::None => None,
            },
            _ => None,
        }
    }
}

proof fn lemma_bulks_of_push_bulk(items: Seq<FrameModel>, b: Seq<u8>)
    ensures
        bulks_of(items.push(FrameModel::BulkString(b))) == match bulks_of(items) {
            Option::Some(r) => Some(r.push(b)),
            Option::None => None::<Seq<Seq<u8>>>,
        },
    decreases items.len(),
{
    let t = items.push(FrameModel::BulkString(b));
    if items.len() == 0 {
        assert(t[0] == FrameModel::BulkString(b));
        assert(t.drop_first() =~= Seq::<FrameModel>::empty());
        assert(bulks_of(Seq::<FrameModel>::empty()) == Some(Seq::<Seq<u8>>::empty()));
        assert(seq![b] + Seq::<Seq<u8>>::empty() =~= Seq::<Seq<u8>>::empty().push(b));
    } else {
        assert(t[0] == items[0]);
        assert(t.drop_first() =~= items.drop_first().push(FrameModel::BulkString(b)));
        lemma_bulks_of_push_bulk(items.drop_first(), b);
        match items[0] {
            FrameModel::BulkString(s) => {
                match bulks_of(items.drop_first()) {
                    Option::Some(r) => {
                        assert(seq![s] + r.push(b) =~= (seq![s] + r).push(b));
                    },
                    Option::None => {},
                }
            },
            _ => {},
        }
    }
}

proof fn lemma_bulks_of_none(items: Seq<FrameModel>, j: int)
    requires
        0 <= j < items.len(),
        !(items[j] is BulkString),
        forall|t: int| 0 <= t < j ==> items[t] is BulkString,
    ensures
        bulks_of(items) is None,
    decreases j,
{
    if j > 0 {
        assert(items.drop_first()[j - 1] == items[j]);
        assert forall|t: int| 0 <= t < j - 1 implies items.drop_first()[t] is BulkString by {
            assert(items.drop_first()[t] == items[t + 1]);
        }
        lemma_bulks_of_none(items.drop_first(), j - 1);
    }
}

pub open spec fn spec_parse_echo(items: Seq<FrameModel>) -> Result<CommandModel, Seq<u8>> {
    if items.len() != 2 {
        Err(echo_args_msg())
    } else {
        match items[1] {
            FrameModel::BulkString(s) => Ok(CommandModel::Echo(s)),
            _ => Err(echo_args_msg()),
        }
    }
}

pub open spec fn spec_parse_set(items: Seq<FrameModel>) -> Result<CommandModel, Seq<u8>> {
    if items.len() < 3 {
        Err(set_args_msg())
    } else {
        match items[1] {
            FrameModel::BulkString(k) => match items[2] {
                FrameModel::BulkString(v) => {
                    if items.len() == 3 {
                        Ok(CommandModel::SetCmd(k, v, None))
                    } else if items.len() > 5 {
                        Err(set_args_msg())
                    } else {
                        match items[3] {
                            FrameModel::BulkString(opt) => {
                                if lower_seq(opt) == "px".spec_bytes() {
                                    if items.len() < 5 {
                                        Err(syntax_msg())
                                    } else {
                                        match items[4] {
                                            FrameModel::BulkString(t) => {
                                                if u64_text_valid(t) {
                                                    Ok(
                                                        CommandModel::SetCmd(
                                                            k,
                                                            v,
                                                            Some(text_value(t) as u64),
                                                        ),
                                                    )
                                                } else {
                                                    Err(not_int_msg())
                                                }
                                            },
                                            _ => Err(syntax_msg()),
                                        }
                                    }
                                } else {
                                    Err(syntax_msg())
                                }
                            },
                            _ => Err(syntax_msg()),
                        }
                    }
                },
                _ => Err(bulk_msg()),
            },
            _ => Err(bulk_msg()),
        }
    }
}

pub open spec fn spec_parse_get(items: Seq<FrameModel>) -> Result<CommandModel, Seq<u8>> {
    if items.len() != 2 {
        Err(get_args_msg())
    } else {
        match items[1] {
            FrameModel::BulkString(k) => Ok(CommandModel::Get(k)),
            _ => Err(bulk_msg()),
        }
    }
}

pub open spec fn spec_parse_push(items: Seq<FrameModel>, args_msg: Seq<u8>) -> Result<
    (Seq<u8>, Seq<Seq<u8>>),
    Seq<u8>,
> {
    if items.len() < 3 {
        Err(args_msg)
    } else {
        match items[1] {
            FrameModel::BulkString(k) => match bulks_of(
                items.subrange(2, items.len() as int),
            ) {
                Option::Some(vs) => Ok((k, vs)),
                Option::None => Err(bulk_msg()),
            },
            _ => Err(bulk_msg()),
        }
    }
}

pub open spec fn spec_parse_rpush(items: Seq<FrameModel>) -> Result<CommandModel, Seq<u8>> {
    match spec_parse_push(items, rpush_args_msg()) {
        Ok(p) => Ok(CommandModel::RPush(p.0, p.1)),
        Err(e) => Err(e),
    }
}

pub open spec fn spec_parse_lpush(items: Seq<FrameModel>) -> Result<CommandModel, Seq<u8>> {
    match spec_parse_push(items, lpush_args_msg()) {
        Ok(p) => Ok(CommandModel::LPush(p.0, p.1)),
        Err(e) => Err(e),
    }
}

pub open spec fn spec_parse_range(items: Seq<FrameModel>) -> Result<CommandModel, Seq<u8>> {
    if items.len() != 4 {
        Err(lrange_args_msg())
    } else {
        match items[1] {
            FrameModel::BulkString(k) => match items[2] {
                FrameModel::BulkString(a) => {
                    if !i64_text_valid(a) {
                        Err(not_int_msg())
                    } else {
                        match items[3] {
                            FrameModel::BulkString(b) => {
                                if !i64_text_valid(b) {
                                    Err(not_int_msg())
                                } else {
                                    Ok(CommandModel::LRange(k, text_value(a), text_value(b)))
                                }
                            },
                            _ => Err(not_int_msg()),
                        }
                    }
                },
                _ => Err(not_int_msg()),
            },
            _ => Err(key_bulk_msg()),
        }
    }
}

pub open spec fn spec_parse_llen(items: Seq<FrameModel>) -> Result<CommandModel, Seq<u8>> {
    if items.len() != 2 {
        Err(llen_args_msg())
    } else {
        match items[1] {
            FrameModel::BulkString(k) => Ok(CommandModel::LLen(k)),
            _ => Err(bulk_msg()),
        }
    }
}

pub open spec fn spec_dispatch(name: Seq<u8>, items: Seq<FrameModel>) -> Result<
    CommandModel,
    Seq<u8>,
> {
    if name == "PING".spec_bytes() {
        Ok(CommandModel::Ping)
    } else if name == "ECHO".spec_bytes() {
        spec_parse_echo(items)
    } else if name == "SET".spec_bytes() {
        spec_parse_set(items)
    } else if name == "GET".spec_bytes() {
        spec_parse_get(items)
    } else if name == "RPUSH".spec_bytes() {
        spec_parse_rpush(items)
    } else if name == "LPUSH".spec_bytes() {
        spec_parse_lpush(items)
    } else if name == "LRANGE".spec_bytes() {
        spec_parse_range(items)
    } else if name == "LLEN".spec_bytes() {
        spec_parse_llen(items)
    } else {
        Err(unknown_msg(name))
    }
}

/// Validation: a request must be a nonempty array whose first element, a
/// string, names the command; each command checks its own arguments.
pub open spec fn spec_from_resp(m: FrameModel) -> Result<CommandModel, Seq<u8>> {
    match m {
        FrameModel::Array(items) => {
            if items.len() == 0 {
                Err(empty_msg())
            } else {
                match items[0] {
                    FrameModel::SimpleString(s) => spec_dispatch(upper_seq(s), items),
                    FrameModel::BulkString(s) => spec_dispatch(upper_seq(s), items),
                    _ => Err(name_msg()),
                }
            }
        },
        _ => Err(array_msg()),
    }
}

/// The bulk-string payload of an argument.
fn get_bulk_string_value(arg: &RespValue) -> (r: Result<Vec<u8>, Vec<u8>>)
    ensures
        match r {
            Ok(v) => frame_model(*arg) == FrameModel::BulkString(v@),
            Err(e) => !(frame_model(*arg) is BulkString) && e@ == bulk_msg(),
        },
{
    match arg {
        RespValue::BulkString(s) => Ok(copy_bytes(s)),
        _ => Err(msg_bytes("ERR value must be bulk string")),
    }
}

/// A signed 64-bit integer read from a bulk-string argument.
fn parse_int(arg: &RespValue) -> (r: Result<i64, Vec<u8>>)
    ensures
        match r {
            Ok(v) => frame_model(*arg) matches FrameModel::BulkString(s) && i64_text_valid(s)
                && v as int == text_value(s),
            Err(e) => e@ == not_int_msg() && match frame_model(*arg) {
                FrameModel::BulkString(s) => !i64_text_valid(s),
                _ => true,
            },
        },
{
    match arg {
        RespValue::BulkString(s) => match parse_i64_text(s) {
            Option::Some(v) => Ok(v),
            Option::None => Err(msg_bytes("ERR value is not an integer")),
        },
        _ => Err(msg_bytes("ERR value is not an integer")),
    }
}

fn parse_echo(args: &Vec<RespValue>) -> (r: Result<Command, Vec<u8>>)
    ensures
        match r {
            Ok(c) => spec_parse_echo(models_of(args@)) == Ok::<CommandModel, Seq<u8>>(
                command_model(c),
            ),
            Err(e) => spec_parse_echo(models_of(args@)) == Err::<CommandModel, Seq<u8>>(e@),
        },
{
    proof {
        lemma_models_of(args@);
    }
    if args.len() != 2 {
        return Err(msg_bytes("ERR wrong number of arguments for 'echo' command"));
    }
    match &args[1] {
        RespValue::BulkString(s) => Ok(Command::Echo(copy_bytes(s))),
        _ => Err(msg_bytes("ERR wrong number of arguments for 'echo' command")),
    }
}

fn parse_set(args: &Vec<RespValue>) -> (r: Result<Command, Vec<u8>>)
    ensures
        match r {
            Ok(c) => spec_parse_set(models_of(args@)) == Ok::<CommandModel, Seq<u8>>(
                command_model(c),
            ),
            Err(e) => spec_parse_set(models_of(args@)) == Err::<CommandModel, Seq<u8>>(e@),
        },
{
    proof {
        lemma_models_of(args@);
    }
    if args.len() < 3 {
        return Err(msg_bytes("ERR wrong number of arguments for 'set' command"));
    }
    let key = match get_bulk_string_value(&args[1]) {
        Ok(k) => k,
        Err(e) => {
            return Err(e);
        },
    };
    let value = match get_bulk_string_value(&args[2]) {
        Ok(v) => v,
        Err(e) => {
            return Err(e);
        },
    };
    if args.len() == 3 {
        return Ok(Command::SetCmd(key, value, None));
    }
    if args.len() > 5 {
        return Err(msg_bytes("ERR wrong number of arguments for 'set' command"));
    }
    match &args[3] {
        RespValue::BulkString(opt) => {
            let low = ascii_lower_bytes(opt);
            let px = msg_bytes("px");
            if bytes_eq(&low, &px) {
                if args.len() < 5 {
                    return Err(msg_bytes("ERR syntax error"));
                }
                match &args[4] {
                    RespValue::BulkString(t) => match parse_u64_text(t) {
                        Option::Some(ms) => Ok(Command::SetCmd(key, value, Some(ms))),
                        Option::None => Err(msg_bytes("ERR value is not an integer")),
                    },
                    _ => Err(msg_bytes("ERR syntax error")),
                }
            } else {
                Err(msg_bytes("ERR syntax error"))
            }
        },
        _ => Err(msg_bytes("ERR syntax error")),
    }
}

fn parse_get(args: &Vec<RespValue>) -> (r: Result<Command, Vec<u8>>)
    ensures
        match r {
            Ok(c) => spec_parse_get(models_of(args@)) == Ok::<CommandModel, Seq<u8>>(
                command_model(c),
            ),
            Err(e) => spec_parse_get(models_of(args@)) == Err::<CommandModel, Seq<u8>>(e@),
        },
{
    proof {
        lemma_models_of(args@);
    }
    if args.len() != 2 {
        return Err(msg_bytes("ERR wrong number of arguments for 'get' command"));
    }
    match get_bulk_string_value(&args[1]) {
        Ok(k) => Ok(Command::Get(k)),
        Err(e) => Err(e),
    }
}

/// The key and the values of a push request: everything from the third
/// argument on is a value.
fn parse_push_command(args: &Vec<RespValue>, args_msg: Vec<u8>) -> (r: Result<
    (Vec<u8>, Vec<Vec<u8>>),
    Vec<u8>,
>)
    ensures
        match r {
            Ok(p) => spec_parse_push(models_of(args@), args_msg@) == Ok::<
                (Seq<u8>, Seq<Seq<u8>>),
                Seq<u8>,
            >((p.0@, p.1.deep_view())) && p.1@.len() >= 1,
            Err(e) => spec_parse_push(models_of(args@), args_msg@) == Err::<
                (Seq<u8>, Seq<Seq<u8>>),
                Seq<u8>,
            >(e@),
        },
{
    proof {
        lemma_models_of(args@);
    }
    let ghost ms = models_of(args@);
    if args.len() < 3 {
        return Err(args_msg);
    }
    let key = match get_bulk_string_value(&args[1]) {
        Ok(k) => k,
        Err(e) => {
            return Err(e);
        },
    };
    let ghost tail = ms.subrange(2, ms.len() as int);
    let mut values: Vec<Vec<u8>> = Vec::new();
    let mut i: usize = 2;
    while i < args.len()
        invariant
            2 <= i <= args@.len(),
            ms == models_of(args@),
            models_of(args@).len() == args@.len(),
            forall|j: int| 0 <= j < args@.len() ==> models_of(args@)[j] == frame_model(
                #[trigger] args@[j],
            ),
            tail == ms.subrange(2, ms.len() as int),
            values@.len() == i - 2,
            bulks_of(ms.subrange(2, i as int)) == Some(values.deep_view()),
        decreases args@.len() - i,
    {
        match &args[i] {
            RespValue::BulkString(s) => {
                let v = copy_bytes(s);
                proof {
                    assert(v.deep_view() =~= s.deep_view());
                    assert(ms[i as int] == FrameModel::BulkString(s@));
                    assert(ms.subrange(2, i + 1) =~= ms.subrange(2, i as int).push(
                        FrameModel::BulkString(s@),
                    ));
                    lemma_bulks_of_push_bulk(ms.subrange(2, i as int), s@);
                    assert(s.deep_view() =~= s@);
                }
                values.push(v);
                proof {
                    assert(values.deep_view() =~= bulks_of(
                        ms.subrange(2, i + 1),
                    )->Some_0);
                }
            },
            _ => {
                proof {
                    assert(!(ms[i as int] is BulkString));
                    assert forall|t: int| 0 <= t < i - 2 implies tail[t] is BulkString by {
                        assert(tail[t] == ms[t + 2]);
                        assert(bulks_of(ms.subrange(2, i as int)) is Some);
                        lemma_bulks_prefix_bulk(ms.subrange(2, i as int), t);
                    }
                    assert(tail[i - 2] == ms[i as int]);
                    lemma_bulks_of_none(tail, i - 2);
                }
                return Err(msg_bytes("ERR value must be bulk string"));
            },
        }
        i = i + 1;
    }
    proof {
        assert(ms.subrange(2, i as int) =~= tail);
    }
    Ok((key, values))
}

proof fn lemma_bulks_prefix_bulk(items: Seq<FrameModel>, t: int)
    requires
        bulks_of(items) is Some,
        0 <= t < items.len(),
    ensures
        items[t] is BulkString,
    decreases t,
{
    if t > 0 {
        assert(items.drop_first()[t - 1] == items[t]);
        lemma_bulks_prefix_bulk(items.drop_first(), t - 1);
    }
}

fn parse_rpush(args: &Vec<RespValue>) -> (r: Result<Command, Vec<u8>>)
    ensures
        match r {
            Ok(c) => spec_parse_rpush(models_of(args@)) == Ok::<CommandModel, Seq<u8>>(
                command_model(c),
            ) && command_wf(c),
            Err(e) => spec_parse_rpush(models_of(args@)) == Err::<CommandModel, Seq<u8>>(e@),
        },
{
    let m = msg_bytes("ERR wrong number of arguments for 'rpush' command");
    match parse_push_command(args, m) {
        Ok((key, values)) => Ok(Command::RPush(key, values)),
        Err(e) => Err(e),
    }
}

fn parse_lpush(args: &Vec<RespValue>) -> (r: Result<Command, Vec<u8>>)
    ensures
        match r {
            Ok(c) => spec_parse_lpush(models_of(args@)) == Ok::<CommandModel, Seq<u8>>(
                command_model(c),
            ) && command_wf(c),
            Err(e) => spec_parse_lpush(models_of(args@)) == Err::<CommandModel, Seq<u8>>(e@),
        },
{
    let m = msg_bytes("ERR wrong number of arguments for 'lpush' command");
    match parse_push_command(args, m) {
        Ok((key, values)) => Ok(Command::LPush(key, values)),
        Err(e) => Err(e),
    }
}

fn parse_range(args: &Vec<RespValue>) -> (r: Result<Command, Vec<u8>>)
    ensures
        match r {
            Ok(c) => spec_parse_range(models_of(args@)) == Ok::<CommandModel, Seq<u8>>(
                command_model(c),
            ),
            Err(e) => spec_parse_range(models_of(args@)) == Err::<CommandModel, Seq<u8>>(e@),
        },
{
    proof {
        lemma_models_of(args@);
    }
    if args.len() != 4 {
        return Err(msg_bytes("ERR wrong number of arguments for 'lrange' command"));
    }
    let key = match &args[1] {
        RespValue::BulkString(s) => copy_bytes(s),
        _ => {
            return Err(msg_bytes("ERR key must be a bulk string"));
        },
    };
    let start = match parse_int(&args[2]) {
        Ok(v) => v,
        Err(e) => {
            return Err(e);
        },
    };
    let end = match parse_int(&args[3]) {
        Ok(v) => v,
        Err(e) => {
            return Err(e);
        },
    };
    Ok(Command::LRange(key, start, end))
}

fn parse_llen(args: &Vec<RespValue>) -> (r: Result<Command, Vec<u8>>)
    ensures
        match r {
            Ok(c) => spec_parse_llen(models_of(args@)) == Ok::<CommandModel, Seq<u8>>(
                command_model(c),
            ),
            Err(e) => spec_parse_llen(models_of(args@)) == Err::<CommandModel, Seq<u8>>(e@),
        },
{
    proof {
        lemma_models_of(args@);
    }
    if args.len() != 2 {
        return Err(msg_bytes("ERR wrong number of arguments for 'llen' command"));
    }
    match get_bulk_string_value(&args[1]) {
        Ok(k) => Ok(Command::LLen(k)),
        Err(e) => Err(e),
    }
}

impl Command {
    /// Validate a parsed frame as a command, or produce the user-visible
    /// error text.
    pub fn from_resp(value: RespValue) -> (r: Result<Command, Vec<u8>>)
        ensures
            match r {
                Ok(c) => spec_from_resp(frame_model(value)) == Ok::<CommandModel, Seq<u8>>(
                    command_model(c),
                ) && command_wf(c),
                Err(e) => spec_from_resp(frame_model(value)) == Err::<CommandModel, Seq<u8>>(
                    e@,
                ),
            },
    {
        let args: Vec<RespValue> = match value {
            RespValue::Array(a) => a,
            _ => {
                return Err(msg_bytes("Command must be an Array"));
            },
        };
        proof {
            lemma_models_of(args@);
        }
        if args.len() == 0 {
            return Err(msg_bytes("Command cannot be empty"));
        }
        let upper = match &args[0] {
            RespValue::SimpleString(s) => ascii_upper_bytes(s),
            RespValue::BulkString(s) => ascii_upper_bytes(s),
            _ => {
                return Err(msg_bytes("Command name must be a string"));
            },
        };
        if bytes_eq(&upper, &msg_bytes("PING")) {
            Ok(Command::Ping)
        } else if bytes_eq(&upper, &msg_bytes("ECHO")) {
            parse_echo(&args)
        } else if bytes_eq(&upper, &msg_bytes("SET")) {
            parse_set(&args)
        } else if bytes_eq(&upper, &msg_bytes("GET")) {
            parse_get(&args)
        } else if bytes_eq(&upper, &msg_bytes("RPUSH")) {
            parse_rpush(&args)
        } else if bytes_eq(&upper, &msg_bytes("LPUSH")) {
            parse_lpush(&args)
        } else if bytes_eq(&upper, &msg_bytes("LRANGE")) {
            parse_range(&args)
        } else if bytes_eq(&upper, &msg_bytes("LLEN")) {
            parse_llen(&args)
        } else {
            let mut e = msg_bytes("Unknown command: ");
            let mut name = upper;
            e.append(&mut name);
            Err(e)
        }
    }
}

/// The length a list reply reports: the wire's integers are signed 64-bit,
/// so a longer list (impossible in practice) would report the maximum.
pub open spec fn len_reply(n: int) -> int {
    if n > i64::MAX {
        i64::MAX as int
    } else {
        n
    }
}

fn len_to_i64(n: usize) -> (r: i64)
    ensures
        r as int == len_reply(n as int),
{
    if (n as u64) > (i64::MAX as u64) {
        i64::MAX
    } else {
        n as i64
    }
}

/// The absolute deadline a TTL yields, saturating at the clock's maximum.
pub open spec fn deadline_of(now: u64, ttl: Option<u64>) -> Option<u64> {
    match ttl {
        Option::Some(d) => Some(
            if now + d > u64::MAX {
                u64::MAX
            } else {
                (now + d) as u64
            },
        ),
        Option::None => None,
    }
}

fn deadline_for(now: u64, d: u64) -> (r: u64)
    ensures
        Some(r) == deadline_of(now, Some(d)),
{
    if d > u64::MAX - now {
        u64::MAX
    } else {
        now + d
    }
}

/// The reply to a push: the new length, or the type error.
fn handle_push(res: Result<usize, ()>) -> (r: RespValue)
    ensures
        match res {
            Ok(n) => frame_model(r) == FrameModel::Integer(len_reply(n as int)),
            Err(_) => frame_model(r) == FrameModel::SimpleError(wrong_type_msg()),
        },
{
    match res {
        Ok(n) => RespValue::Integer(len_to_i64(n)),
        Err(_) => RespValue::SimpleError(
            msg_bytes("WRONGTYPE Operation against a key holding the wrong kind of value"),
        ),
    }
}

/// What executing a command does: the reply frame and the store after it.
pub open spec fn spec_execute(c: CommandModel, m: StoreModel, now: u64) -> (FrameModel, StoreModel) {
    match c {
        CommandModel::Ping => (FrameModel::SimpleString(pong_msg()), m),
        CommandModel::Echo(x) => (FrameModel::BulkString(x), m),
        CommandModel::SetCmd(k, v, ttl) => (
            FrameModel::SimpleString(ok_msg()),
            m.insert(
                k,
                EntryModel { value: ValueModel::Str(v), deadline: deadline_of(now, ttl) },
            ),
        ),
        CommandModel::Get(k) => {
            let m1 = expire_effect(m, k, now);
            if !m1.contains_key(k) {
                (FrameModel::Null, m1)
            } else {
                match m1[k].value {
                    ValueModel::Str(s) => (FrameModel::BulkString(s), m1),
                    _ => (FrameModel::SimpleError(wrong_type_msg()), m1),
                }
            }
        },
        CommandModel::RPush(k, vs) => match rpush_step(m, k, vs, now) {
            Option::Some(p) => (FrameModel::Integer(len_reply(p.1)), p.0),
            Option::None => (
                FrameModel::SimpleError(wrong_type_msg()),
                expire_effect(m, k, now),
            ),
        },
        CommandModel::LPush(k, vs) => match lpush_step(m, k, vs, now) {
            Option::Some(p) => (FrameModel::Integer(len_reply(p.1)), p.0),
            Option::None => (
                FrameModel::SimpleError(wrong_type_msg()),
                expire_effect(m, k, now),
            ),
        },
        CommandModel::LRange(k, a, b) => {
            let m1 = expire_effect(m, k, now);
            if !m1.contains_key(k) {
                (FrameModel::Array(Seq::empty()), m1)
            } else {
                match m1[k].value {
                    ValueModel::ListV(l) => (
                        FrameModel::Array(
                            lrange_slice(l, a, b).map(|i: int, s: Seq<u8>| FrameModel::BulkString(s)),
                        ),
                        m1,
                    ),
                    _ => (FrameModel::SimpleError(wrong_type_msg()), m1),
                }
            }
        },
        CommandModel::LLen(k) => {
            let m1 = expire_effect(m, k, now);
            if !m1.contains_key(k) {
                (FrameModel::Integer(0), m1)
            } else {
                match m1[k].value {
                    ValueModel::ListV(l) => (FrameModel::Integer(len_reply(l.len() as int)), m1),
                    _ => (FrameModel::SimpleError(wrong_type_msg()), m1),
                }
            }
        },
    }
}

impl Command {
    /// Execute this command against the store at time `now` and produce
    /// the reply frame. Valid commands never panic: absent keys, expired
    /// keys and wrong value kinds all have defined replies.
    pub fn execute(self, db: &mut Db, now: u64) -> (r: RespValue)
        requires
            old(db).wf(),
            command_wf(self),
        ensures
            final(db).wf(),
            ({
                let p = spec_execute(command_model(self), old(db)@, now);
                frame_model(r) == p.0 && final(db)@ == p.1
            }),
    {
        match self {
            Command::Ping => RespValue::SimpleString(msg_bytes("PONG")),
            Command::Echo(m) => RespValue::BulkString(m),
            Command::SetCmd(k, v, ttl) => {
                let dl = match ttl {
                    Option::Some(d) => Some(deadline_for(now, d)),
                    Option::None => None,
                };
                db.set(k, v, dl);
                RespValue::SimpleString(msg_bytes("OK"))
            },
            Command::Get(k) => match db.get(&k, now) {
                Option::Some(DataType::String(s)) => RespValue::BulkString(s),
                Option::None => RespValue::Null,
                Option::Some(_) => RespValue::SimpleError(
                    msg_bytes("WRONGTYPE Operation against a key holding the wrong kind of value"),
                ),
            },
            Command::RPush(k, vs) => {
                let res = db.rpush(k, vs, now);
                handle_push(res)
            },
            Command::LPush(k, vs) => {
                let res = db.lpush(k, vs, now);
                handle_push(res)
            },
            Command::LRange(k, a, b) => match db.lrange(&k, a, b, now) {
                Ok(items) => {
                    let ghost slice = items.deep_view();
                    let mut out: Vec<RespValue> = Vec::new();
                    let mut rest = items;
                    proof {
                        assert(models_of(out@) =~= Seq::<FrameModel>::empty());
                        assert(rest.deep_view() =~= slice.subrange(0, slice.len() as int));
                    }
                    while rest.len() > 0
                        invariant
                            out@.len() + rest@.len() == slice.len(),
                            rest.deep_view() == slice.subrange(
                                out@.len() as int,
                                slice.len() as int,
                            ),
                            models_of(out@) == slice.subrange(0, out@.len() as int).map(
                                |i: int, s: Seq<u8>| FrameModel::BulkString(s),
                            ),
                        decreases rest@.len(),
                    {
                        let ghost q = out@.len() as int;
                        let ghost r0 = rest@;
                        let x = rest.remove(0);
                        proof {
                            assert(x == r0[0]);
                            assert(x.deep_view() == x@);
                            assert(x@ == slice[q]) by {
                                assert(r0[0].deep_view() == slice.subrange(q, slice.len() as int)[0]);
                            }
                            crate::resp::lemma_models_of_push(out@, RespValue::BulkString(x));
                            assert(slice.subrange(0, q + 1) =~= slice.subrange(0, q).push(
                                slice[q],
                            ));
                            assert(slice.subrange(0, q + 1).map(
                                |i: int, s: Seq<u8>| FrameModel::BulkString(s),
                            ) =~= slice.subrange(0, q).map(
                                |i: int, s: Seq<u8>| FrameModel::BulkString(s),
                            ).push(FrameModel::BulkString(slice[q])));
                        }
                        out.push(RespValue::BulkString(x));
                        proof {
                            assert(rest.deep_view() =~= slice.subrange(
                                out@.len() as int,
                                slice.len() as int,
                            )) by {
                                assert forall|t: int| 0 <= t < rest@.len() implies rest.deep_view()[t]
                                    == slice[out@.len() + t] by {
                                    assert(rest@[t] == r0[t + 1]);
                                    assert(r0[t + 1].deep_view() == slice.subrange(
                                        q,
                                        slice.len() as int,
                                    )[t + 1]);
                                }
                            }
                        }
                    }
                    proof {
                        assert(slice.subrange(0, slice.len() as int) =~= slice);
                    }
                    RespValue::Array(out)
                },
                Err(_) => RespValue::SimpleError(
                    msg_bytes("WRONGTYPE Operation against a key holding the wrong kind of value"),
                ),
            },
            Command::LLen(k) => match db.llen(&k, now) {
                Ok(n) => RespValue::Integer(len_to_i64(n)),
                Err(_) => RespValue::SimpleError(
                    msg_bytes("WRONGTYPE Operation against a key holding the wrong kind of value"),
                ),
            },
        }
    }
}

} // verus!

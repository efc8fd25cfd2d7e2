//! The command layer: turning a decoded request frame into one of a fixed
//! set of typed commands, and executing each against the store.
use vstd::prelude::*;

use crate::backend::{pairs_match, Backend};
use crate::model::FrameM;
use crate::resp::{models, BulkString, RespArray, RespFrame, RespNull, SimpleString};
use vstd::string::{StringSliceAdditionalSpecFns, StrSliceExecFns};
use vstd::utf8::{decode_utf8, encode_utf8, valid_utf8};

verus! {

/// Why a request frame yields no command.
#[derive(Debug, Clone, Copy, PartialEq, Eq, Structural)]
pub enum CommandError {
    /// The request is not an array of the right shape, or misnames the
    /// command.
    InvalidCommand,
    /// A field has the wrong kind, count, or is not text where text is
    /// required.
    InvalidArgument,
}

#[derive(Debug)]
pub struct Get {
    pub key: String,
}

#[derive(Debug)]
pub struct SetCmd {
    pub key: String,
    pub value: RespFrame,
}

#[derive(Debug)]
pub struct HGet {
    pub key: String,
    pub field: String,
}

#[derive(Debug)]
pub struct HSet {
    pub key: String,
    pub field: String,
    pub value: RespFrame,
}

#[derive(Debug)]
pub struct HMGet {
    pub key: String,
    pub fields: Vec<String>,
}

#[derive(Debug)]
pub struct HGetAll {
    pub key: String,
    pub sort: bool,
}

#[derive(Debug)]
pub struct Echo {
    pub message: String,
}

#[derive(Debug)]
pub struct Sadd {
    pub key: String,
    pub members: Vec<String>,
}

#[derive(Debug)]
pub struct Sismember {
    pub key: String,
    pub member: String,
}

#[derive(Debug)]
pub struct Unrecognized;

/// The closed set of typed operations, one per supported command name.
#[derive(Debug)]
pub enum Command {
    Get(Get),
    SetCmd(SetCmd),
    HGet(HGet),
    HSet(HSet),
    HMGet(HMGet),
    HGetAll(HGetAll),
    Echo(Echo),
    Sadd(Sadd),
    Sismember(Sismember),
    Unrecognized(Unrecognized),
}

/// The mathematical value of a command.
pub enum CmdM {
    Get { key: Seq<char> },
    SetCmd { key: Seq<char>, value: FrameM },
    HGet { key: Seq<char>, field: Seq<char> },
    HSet { key: Seq<char>, field: Seq<char>, value: FrameM },
    HMGet { key: Seq<char>, fields: Seq<Seq<char>> },
    HGetAll { key: Seq<char>, sort: bool },
    Echo { message: Seq<char> },
    Sadd { key: Seq<char>, members: Seq<Seq<char>> },
    Sismember { key: Seq<char>, member: Seq<char> },
    Unrecognized,
}

impl Command {
    pub open spec fn model(self) -> CmdM {
        match self {
            Command::Get(c) => CmdM::Get { key: c.key@ },
            Command::SetCmd(c) => CmdM::SetCmd { key: c.key@, value: c.value.model() },
            Command::HGet(c) => CmdM::HGet { key: c.key@, field: c.field@ },
            Command::HSet(c) => CmdM::HSet {
                key: c.key@,
                field: c.field@,
                value: c.value.model(),
            },
            Command::HMGet(c) => CmdM::HMGet {
                key: c.key@,
                fields: c.fields@.map_values(|s: String| s@),
            },
            Command::HGetAll(c) => CmdM::HGetAll { key: c.key@, sort: c.sort },
            Command::Echo(c) => CmdM::Echo { message: c.message@ },
            Command::Sadd(c) => CmdM::Sadd {
                key: c.key@,
                members: c.members@.map_values(|s: String| s@),
            },
            Command::Sismember(c) => CmdM::Sismember { key: c.key@, member: c.member@ },
            Command::Unrecognized(_) => CmdM::Unrecognized,
        }
    }
}

// ---------- command names and case folding ----------

/// ASCII lowercase of one byte.
pub open spec fn lower(b: u8) -> u8 {
    if 65 <= b <= 90 {
        (b + 32) as u8
    } else {
        b
    }
}

/// ASCII lowercase of a byte sequence.
pub open spec fn lower_seq(s: Seq<u8>) -> Seq<u8> {
    s.map_values(|b: u8| lower(b))
}

pub open spec fn name_get() -> Seq<u8> {
    seq![103u8, 101u8, 116u8]
}

pub open spec fn name_set() -> Seq<u8> {
    seq![115u8, 101u8, 116u8]
}

pub open spec fn name_hget() -> Seq<u8> {
    seq![104u8, 103u8, 101u8, 116u8]
}

pub open spec fn name_hset() -> Seq<u8> {
    seq![104u8, 115u8, 101u8, 116u8]
}

pub open spec fn name_hmget() -> Seq<u8> {
    seq![104u8, 109u8, 103u8, 101u8, 116u8]
}

pub open spec fn name_hgetall() -> Seq<u8> {
    seq![104u8, 103u8, 101u8, 116u8, 97u8, 108u8, 108u8]
}

pub open spec fn name_echo() -> Seq<u8> {
    seq![101u8, 99u8, 104u8, 111u8]
}

pub open spec fn name_sadd() -> Seq<u8> {
    seq![115u8, 97u8, 100u8, 100u8]
}

pub open spec fn name_sismember() -> Seq<u8> {
    seq![115u8, 105u8, 115u8, 109u8, 101u8, 109u8, 98u8, 101u8, 114u8]
}

// ---------- the parse relation ----------

/// Whether position `i` of the request holds a bulk string that names
/// `name`, compared case-insensitively.
pub open spec fn name_token_ok(es: Seq<FrameM>, i: int, name: Seq<u8>) -> bool {
    &&& 0 <= i < es.len()
    &&& match es[i] {
        FrameM::Bulk(d_opt) => match d_opt {
            Some(d) => lower_seq(d) == name,
            None => false,
        },
        _ => false,
    }
}

/// The shape checks every command applies before reading its fields: the
/// request must be a present array, hold exactly the expected count when one
/// is fixed, and open with the expected name tokens.
pub open spec fn validate_spec(
    a: Option<Seq<FrameM>>,
    names: Seq<Seq<u8>>,
    n_args: Option<nat>,
) -> Result<(), CommandError> {
    match a {
        None => Err(CommandError::InvalidCommand),
        Some(es) => {
            if n_args is Some && es.len() != names.len() + n_args->0 {
                Err(CommandError::InvalidArgument)
            } else if !(forall|i: int|
                0 <= i < names.len() ==> name_token_ok(es, i, #[trigger] names[i])) {
                Err(CommandError::InvalidCommand)
            } else {
                Ok(())
            }
        },
    }
}

/// A present bulk string holding valid text.
pub open spec fn text_arg(m: FrameM) -> Option<Seq<char>> {
    match m {
        FrameM::Bulk(d_opt) => match d_opt {
            Some(d) => if valid_utf8(d) {
                Some(decode_utf8(d))
            } else {
                None
            },
            None => None,
        },
        _ => None,
    }
}

pub open spec fn parse_get(a: Option<Seq<FrameM>>) -> Result<CmdM, CommandError> {
    match validate_spec(a, seq![name_get()], Some(1)) {
        Err(e) => Err(e),
        Ok(()) => match text_arg(a->0[1]) {
            Some(k) => Ok(CmdM::Get { key: k }),
            None => Err(CommandError::InvalidArgument),
        },
    }
}

pub open spec fn parse_set(a: Option<Seq<FrameM>>) -> Result<CmdM, CommandError> {
    match validate_spec(a, seq![name_set()], Some(2)) {
        Err(e) => Err(e),
        Ok(()) => match text_arg(a->0[1]) {
            Some(k) => Ok(CmdM::SetCmd { key: k, value: a->0[2] }),
            None => Err(CommandError::InvalidArgument),
        },
    }
}

pub open spec fn parse_hget(a: Option<Seq<FrameM>>) -> Result<CmdM, CommandError> {
    match validate_spec(a, seq![name_hget()], Some(2)) {
        Err(e) => Err(e),
        Ok(()) => match (text_arg(a->0[1]), text_arg(a->0[2])) {
            (Some(k), Some(f)) => Ok(CmdM::HGet { key: k, field: f }),
            _ => Err(CommandError::InvalidArgument),
        },
    }
}

pub open spec fn parse_hset(a: Option<Seq<FrameM>>) -> Result<CmdM, CommandError> {
    match validate_spec(a, seq![name_hset()], Some(3)) {
        Err(e) => Err(e),
        Ok(()) => match (text_arg(a->0[1]), text_arg(a->0[2])) {
            (Some(k), Some(f)) => Ok(CmdM::HSet { key: k, field: f, value: a->0[3] }),
            _ => Err(CommandError::InvalidArgument),
        },
    }
}

/// Reads positions `from..` as text arguments; absence marks the first
/// position that is not text.
pub open spec fn text_args(es: Seq<FrameM>, from: int) -> Option<Seq<Seq<char>>> {
    if forall|i: int| from <= i < es.len() ==> text_arg(#[trigger] es[i]) is Some {
        Some(Seq::new((es.len() - from) as nat, |i: int| text_arg(es[from + i])->0))
    } else {
        None
    }
}

pub open spec fn parse_hmget(a: Option<Seq<FrameM>>) -> Result<CmdM, CommandError> {
    match validate_spec(a, seq![name_hmget()], None) {
        Err(e) => Err(e),
        Ok(()) => {
            let es = a->0;
            if es.len() < 2 {
                Err(CommandError::InvalidArgument)
            } else {
                match (text_arg(es[1]), text_args(es, 2)) {
                    (Some(k), Some(fs)) => Ok(CmdM::HMGet { key: k, fields: fs }),
                    _ => Err(CommandError::InvalidArgument),
                }
            }
        },
    }
}

pub open spec fn parse_hgetall(a: Option<Seq<FrameM>>) -> Result<CmdM, CommandError> {
    match validate_spec(a, seq![name_hgetall()], Some(1)) {
        Err(e) => Err(e),
        Ok(()) => match text_arg(a->0[1]) {
            Some(k) => Ok(CmdM::HGetAll { key: k, sort: false }),
            None => Err(CommandError::InvalidArgument),
        },
    }
}

pub open spec fn parse_echo(a: Option<Seq<FrameM>>) -> Result<CmdM, CommandError> {
    match validate_spec(a, seq![name_echo()], Some(1)) {
        Err(e) => Err(e),
        Ok(()) => match text_arg(a->0[1]) {
            Some(msg) => Ok(CmdM::Echo { message: msg }),
            None => Err(CommandError::InvalidArgument),
        },
    }
}

pub open spec fn parse_sadd(a: Option<Seq<FrameM>>) -> Result<CmdM, CommandError> {
    match validate_spec(a, seq![name_sadd()], None) {
        Err(e) => Err(e),
        Ok(()) => {
            let es = a->0;
            if es.len() < 2 {
                Err(CommandError::InvalidArgument)
            } else {
                match (text_arg(es[1]), text_args(es, 2)) {
                    (Some(k), Some(msv)) => if msv.len() <= i64::MAX {
                        Ok(CmdM::Sadd { key: k, members: msv })
                    } else {
                        Err(CommandError::InvalidArgument)
                    },
                    _ => Err(CommandError::InvalidArgument),
                }
            }
        },
    }
}

pub open spec fn parse_sismember(a: Option<Seq<FrameM>>) -> Result<CmdM, CommandError> {
    match validate_spec(a, seq![name_sismember()], Some(2)) {
        Err(e) => Err(e),
        Ok(()) => match (text_arg(a->0[1]), text_arg(a->0[2])) {
            (Some(k), Some(mb)) => Ok(CmdM::Sismember { key: k, member: mb }),
            _ => Err(CommandError::InvalidArgument),
        },
    }
}

/// What a whole request array parses to: dispatch on the first element's
/// name, folded to lowercase; an unknown name is the no-op command.
pub open spec fn parse_cmd(a: Option<Seq<FrameM>>) -> Result<CmdM, CommandError> {
    match a {
        None => Err(CommandError::InvalidCommand),
        Some(es) => if es.len() == 0 {
            Err(CommandError::InvalidCommand)
        } else {
            match es[0] {
                FrameM::Bulk(d_opt) => match d_opt {
                    Some(d) => {
                        let n = lower_seq(d);
                        if n == name_get() {
                            parse_get(a)
                        } else if n == name_set() {
                            parse_set(a)
                        } else if n == name_hget() {
                            parse_hget(a)
                        } else if n == name_hset() {
                            parse_hset(a)
                        } else if n == name_hmget() {
                            parse_hmget(a)
                        } else if n == name_hgetall() {
                            parse_hgetall(a)
                        } else if n == name_echo() {
                            parse_echo(a)
                        } else if n == name_sadd() {
                            parse_sadd(a)
                        } else if n == name_sismember() {
                            parse_sismember(a)
                        } else {
                            Ok(CmdM::Unrecognized)
                        }
                    },
                    None => Err(CommandError::InvalidCommand),
                },
                _ => Err(CommandError::InvalidCommand),
            }
        },
    }
}


// ---------- parsing helpers ----------

/// The bytes of the `get` command name.
fn vec_name_get() -> (r: Vec<u8>)
    ensures
        r@ == name_get(),
{
    let mut v: Vec<u8> = Vec::new();
    v.push(103);
    v.push(101);
    v.push(116);
    proof {
        assert(v@ =~= name_get());
    }
    v
}

/// The bytes of the `set` command name.
fn vec_name_set() -> (r: Vec<u8>)
    ensures
        r@ == name_set(),
{
    let mut v: Vec<u8> = Vec::new();
    v.push(115);
    v.push(101);
    v.push(116);
    proof {
        assert(v@ =~= name_set());
    }
    v
}

/// The bytes of the `hget` command name.
fn vec_name_hget() -> (r: Vec<u8>)
    ensures
        r@ == name_hget(),
{
    let mut v: Vec<u8> = Vec::new();
    v.push(104);
    v.push(103);
    v.push(101);
    v.push(116);
    proof {
        assert(v@ =~= name_hget());
    }
    v
}

/// The bytes of the `hset` command name.
fn vec_name_hset() -> (r: Vec<u8>)
    ensures
        r@ == name_hset(),
{
    let mut v: Vec<u8> = Vec::new();
    v.push(104);
    v.push(115);
    v.push(101);
    v.push(116);
    proof {
        assert(v@ =~= name_hset());
    }
    v
}

/// The bytes of the `hmget` command name.
fn vec_name_hmget() -> (r: Vec<u8>)
    ensures
        r@ == name_hmget(),
{
    let mut v: Vec<u8> = Vec::new();
    v.push(104);
    v.push(109);
    v.push(103);
    v.push(101);
    v.push(116);
    proof {
        assert(v@ =~= name_hmget());
    }
    v
}

/// The bytes of the `hgetall` command name.
fn vec_name_hgetall() -> (r: Vec<u8>)
    ensures
        r@ == name_hgetall(),
{
    let mut v: Vec<u8> = Vec::new();
    v.push(104);
    v.push(103);
    v.push(101);
    v.push(116);
    v.push(97);
    v.push(108);
    v.push(108);
    proof {
        assert(v@ =~= name_hgetall());
    }
    v
}

/// The bytes of the `echo` command name.
fn vec_name_echo() -> (r: Vec<u8>)
    ensures
        r@ == name_echo(),
{
    let mut v: Vec<u8> = Vec::new();
    v.push(101);
    v.push(99);
    v.push(104);
    v.push(111);
    proof {
        assert(v@ =~= name_echo());
    }
    v
}

/// The bytes of the `sadd` command name.
fn vec_name_sadd() -> (r: Vec<u8>)
    ensures
        r@ == name_sadd(),
{
    let mut v: Vec<u8> = Vec::new();
    v.push(115);
    v.push(97);
    v.push(100);
    v.push(100);
    proof {
        assert(v@ =~= name_sadd());
    }
    v
}

/// The bytes of the `sismember` command name.
fn vec_name_sismember() -> (r: Vec<u8>)
    ensures
        r@ == name_sismember(),
{
    let mut v: Vec<u8> = Vec::new();
    v.push(115);
    v.push(105);
    v.push(115);
    v.push(109);
    v.push(101);
    v.push(109);
    v.push(98);
    v.push(101);
    v.push(114);
    proof {
        assert(v@ =~= name_sismember());
    }
    v
}

/// Relies on String::from_utf8: text exactly when the bytes are valid UTF-8,
/// with the decoded characters.
#[verifier::external_body]
fn string_from_utf8(bytes: Vec<u8>) -> (r: Option<String>)
    ensures
        match r {
            Some(s) => valid_utf8(bytes@) && s@ == decode_utf8(bytes@),
            None => !valid_utf8(bytes@),
        },
{
    String::from_utf8(bytes).ok()
}

/// Whether `v`, folded to ASCII lowercase, spells `name`.
fn eq_lower(v: &[u8], name: &[u8]) -> (r: bool)
    ensures
        r == (lower_seq(v@) == name@),
{
    if v.len() != name.len() {
        proof {
            assert(lower_seq(v@).len() == v@.len());
        }
        return false;
    }
    let mut k: usize = 0;
    while k < v.len()
        invariant
            k <= v@.len(),
            v@.len() == name@.len(),
            forall|i: int| 0 <= i < k ==> lower_seq(v@)[i] == name@[i],
        decreases v@.len() - k,
    {
        let b = v[k];
        let lb: u8 = if b >= 65 && b <= 90 {
            b + 32
        } else {
            b
        };
        proof {
            assert(lower_seq(v@)[k as int] == lower(v@[k as int]));
        }
        if lb != name[k] {
            proof {
                assert(lower_seq(v@)[k as int] != name@[k as int]);
            }
            return false;
        }
        k = k + 1;
    }
    proof {
        assert(lower_seq(v@) =~= name@);
    }
    true
}

/// Takes one argument that must be a present, valid-text bulk string.
fn take_text(f: RespFrame) -> (r: Result<String, CommandError>)
    ensures
        match r {
            Ok(s) => text_arg(f.model()) == Some(s@),
            Err(e) => e == CommandError::InvalidArgument && text_arg(f.model())
                == None::<Seq<char>>,
        },
{
    match f {
        RespFrame::BulkString(b) => match b.0 {
            Some(d) => match string_from_utf8(d) {
                Some(s) => Ok(s),
                None => Err(CommandError::InvalidArgument),
            },
            None => Err(CommandError::InvalidArgument),
        },
        _ => Err(CommandError::InvalidArgument),
    }
}


/// Applies the shape checks of `validate_spec` to a request array.
#[verifier::loop_isolation(false)]
pub fn validate_command(value: &RespArray, names: &Vec<Vec<u8>>, n_args: Option<usize>) -> (r: Result<
    (),
    CommandError,
>)
    ensures
        ({
            let names_m = names@.map_values(|n: Vec<u8>| n@);
            let n_m = match n_args {
                Some(n) => Some(n as nat),
                None => None::<nat>,
            };
            match r {
                Ok(_) => validate_spec(value.model(), names_m, n_m) == Ok::<(), CommandError>(()),
                Err(e) => validate_spec(value.model(), names_m, n_m) == Err::<(), CommandError>(
                    e,
                ),
            }
        }),
{
    let ghost names_m = names@.map_values(|n: Vec<u8>| n@);
    let frames = match &value.0 {
        Some(fr) => fr,
        None => {
            return Err(CommandError::InvalidCommand);
        },
    };
    let ghost es = models(frames@);
    if let Some(n) = n_args {
        if frames.len() < names.len() || frames.len() - names.len() != n {
            return Err(CommandError::InvalidArgument);
        }
    }
    let mut i: usize = 0;
    while i < names.len()
        invariant
            i <= names@.len(),
            forall|j: int| 0 <= j < i ==> name_token_ok(es, j, #[trigger] names_m[j]),
        decreases names@.len() - i,
    {
        if i >= frames.len() {
            proof {
                assert(!name_token_ok(es, i as int, names_m[i as int]));
            }
            return Err(CommandError::InvalidCommand);
        }
        let token_ok = match &frames[i] {
            RespFrame::BulkString(b) => match &b.0 {
                Some(d) => eq_lower(d.as_slice(), names[i].as_slice()),
                None => false,
            },
            _ => false,
        };
        if !token_ok {
            proof {
                assert(es[i as int] == frames@[i as int].model());
                assert(!name_token_ok(es, i as int, names_m[i as int]));
            }
            return Err(CommandError::InvalidCommand);
        }
        proof {
            assert(es[i as int] == frames@[i as int].model());
            assert(name_token_ok(es, i as int, names_m[i as int]));
        }
        i = i + 1;
    }
    Ok(())
}

/// Hands back the request's elements after the name tokens, in order.
pub fn extract_args(value: RespArray, start: usize) -> (r: Result<Vec<RespFrame>, CommandError>)
    ensures
        match r {
            Ok(v) => value.model() is Some && models(v@) == ({
                let es = value.model()->0;
                if start <= es.len() {
                    es.skip(start as int)
                } else {
                    Seq::<FrameM>::empty()
                }
            }),
            Err(e) => e == CommandError::InvalidCommand && value.model() is None,
        },
{
    match value.0 {
        Some(mut frames) => {
            let ghost es = models(frames@);
            if start >= frames.len() {
                let empty: Vec<RespFrame> = Vec::new();
                proof {
                    assert(models(empty@) =~= Seq::<FrameM>::empty());
                    if start <= es.len() {
                        assert(es.skip(start as int) =~= Seq::<FrameM>::empty());
                    }
                }
                Ok(empty)
            } else {
                let tail = frames.split_off(start);
                proof {
                    assert(models(tail@) =~= es.skip(start as int));
                }
                Ok(tail)
            }
        },
        None => Err(CommandError::InvalidCommand),
    }
}


impl Get {
    /// Parses a `get` request into its typed fields.
    pub fn try_from(v: RespArray) -> (r: Result<Get, CommandError>)
        ensures
            match r {
                Ok(c) => parse_get(v.model()) == Ok::<CmdM, CommandError>((CmdM::Get { key: c.key@ })),
                Err(e) => parse_get(v.model()) == Err::<CmdM, CommandError>(e),
            },
    {
        let mut ns: Vec<Vec<u8>> = Vec::new();
        ns.push(vec_name_get());
        proof {
            assert(ns@.map_values(|n: Vec<u8>| n@) =~= seq![name_get()]);
        }
        match validate_command(&v, &ns, Some(1)) {
            Err(e) => {
                return Err(e);
            },
            Ok(_) => {},
        }
        let ghost es = v.model()->0;
        let mut args = match extract_args(v, 1) {
            Ok(args) => args,
            Err(e) => {
                proof {
                    assert(false);
                }
                return Err(e);
            },
        };
        proof {
            assert(models(args@).len() == 1);
        }
        let ghost am = models(args@);
        let ghost avs = args@;
        let a0 = args.remove(0);
        proof {
            assert(a0 == avs[0]);
            assert(am[0] == avs[0].model());
            assert(am[0] == es.skip(1)[0]);
            assert(a0.model() == es[1]);
        }
        match take_text(a0) {
            Ok(key) => Ok(Get { key }),
            Err(e) => Err(e),
        }
    }
}


impl SetCmd {
    /// Parses a `set` request into its typed fields.
    pub fn try_from(v: RespArray) -> (r: Result<SetCmd, CommandError>)
        ensures
            match r {
                Ok(c) => parse_set(v.model()) == Ok::<CmdM, CommandError>((CmdM::SetCmd { key: c.key@, value: c.value.model() })),
                Err(e) => parse_set(v.model()) == Err::<CmdM, CommandError>(e),
            },
    {
        let mut ns: Vec<Vec<u8>> = Vec::new();
        ns.push(vec_name_set());
        proof {
            assert(ns@.map_values(|n: Vec<u8>| n@) =~= seq![name_set()]);
        }
        match validate_command(&v, &ns, Some(2)) {
            Err(e) => {
                return Err(e);
            },
            Ok(_) => {},
        }
        let ghost es = v.model()->0;
        let mut args = match extract_args(v, 1) {
            Ok(args) => args,
            Err(e) => {
                proof {
                    assert(false);
                }
                return Err(e);
            },
        };
        proof {
            assert(models(args@).len() == 2);
        }
        let ghost am = models(args@);
        let ghost avs = args@;
        let a0 = args.remove(0);
        let ghost avs1 = args@;
        let a1 = args.remove(0);
        proof {
            assert(a0 == avs[0]);
            assert(avs1 =~= avs.skip(1));
            assert(a1 == avs[1]);
            assert(am[0] == avs[0].model() && am[0] == es.skip(1)[0]);
            assert(am[1] == avs[1].model() && am[1] == es.skip(1)[1]);
            assert(a0.model() == es[1]);
            assert(a1.model() == es[2]);
        }
        match take_text(a0) {
            Ok(key) => Ok(SetCmd { key, value: a1 }),
            Err(e) => Err(e),
        }
    }
}


impl HGet {
    /// Parses a `hget` request into its typed fields.
    pub fn try_from(v: RespArray) -> (r: Result<HGet, CommandError>)
        ensures
            match r {
                Ok(c) => parse_hget(v.model()) == Ok::<CmdM, CommandError>((CmdM::HGet { key: c.key@, field: c.field@ })),
                Err(e) => parse_hget(v.model()) == Err::<CmdM, CommandError>(e),
            },
    {
        let mut ns: Vec<Vec<u8>> = Vec::new();
        ns.push(vec_name_hget());
        proof {
            assert(ns@.map_values(|n: Vec<u8>| n@) =~= seq![name_hget()]);
        }
        match validate_command(&v, &ns, Some(2)) {
            Err(e) => {
                return Err(e);
            },
            Ok(_) => {},
        }
        let ghost es = v.model()->0;
        let mut args = match extract_args(v, 1) {
            Ok(args) => args,
            Err(e) => {
                proof {
                    assert(false);
                }
                return Err(e);
            },
        };
        proof {
            assert(models(args@).len() == 2);
        }
        let ghost am = models(args@);
        let ghost avs = args@;
        let a0 = args.remove(0);
        let ghost avs1 = args@;
        let a1 = args.remove(0);
        proof {
            assert(a0 == avs[0]);
            assert(avs1 =~= avs.skip(1));
            assert(a1 == avs[1]);
            assert(am[0] == avs[0].model() && am[0] == es.skip(1)[0]);
            assert(am[1] == avs[1].model() && am[1] == es.skip(1)[1]);
            assert(a0.model() == es[1]);
            assert(a1.model() == es[2]);
        }
        match (take_text(a0), take_text(a1)) {
            (Ok(key), Ok(field)) => Ok(HGet { key, field }),
            _ => Err(CommandError::InvalidArgument),
        }
    }
}


impl HSet {
    /// Parses a `hset` request into its typed fields.
    pub fn try_from(v: RespArray) -> (r: Result<HSet, CommandError>)
        ensures
            match r {
                Ok(c) => parse_hset(v.model()) == Ok::<CmdM, CommandError>((CmdM::HSet { key: c.key@, field: c.field@, value: c.value.model() })),
                Err(e) => parse_hset(v.model()) == Err::<CmdM, CommandError>(e),
            },
    {
        let mut ns: Vec<Vec<u8>> = Vec::new();
        ns.push(vec_name_hset());
        proof {
            assert(ns@.map_values(|n: Vec<u8>| n@) =~= seq![name_hset()]);
        }
        match validate_command(&v, &ns, Some(3)) {
            Err(e) => {
                return Err(e);
            },
            Ok(_) => {},
        }
        let ghost es = v.model()->0;
        let mut args = match extract_args(v, 1) {
            Ok(args) => args,
            Err(e) => {
                proof {
                    assert(false);
                }
                return Err(e);
            },
        };
        proof {
            assert(models(args@).len() == 3);
        }
        let ghost am = models(args@);
        let ghost avs = args@;
        let a0 = args.remove(0);
        let ghost avs1 = args@;
        let a1 = args.remove(0);
        let ghost avs2 = args@;
        let a2 = args.remove(0);
        proof {
            assert(a0 == avs[0]);
            assert(avs1 =~= avs.skip(1));
            assert(a1 == avs[1]);
            assert(avs2 =~= avs.skip(2));
            assert(a2 == avs[2]);
            assert(am[0] == avs[0].model() && am[0] == es.skip(1)[0]);
            assert(am[1] == avs[1].model() && am[1] == es.skip(1)[1]);
            assert(am[2] == avs[2].model() && am[2] == es.skip(1)[2]);
            assert(a0.model() == es[1]);
            assert(a1.model() == es[2]);
            assert(a2.model() == es[3]);
        }
        match (take_text(a0), take_text(a1)) {
            (Ok(key), Ok(field)) => Ok(HSet { key, field, value: a2 }),
            _ => Err(CommandError::InvalidArgument),
        }
    }
}


impl HGetAll {
    /// Parses a `hgetall` request into its typed fields.
    pub fn try_from(v: RespArray) -> (r: Result<HGetAll, CommandError>)
        ensures
            match r {
                Ok(c) => parse_hgetall(v.model()) == Ok::<CmdM, CommandError>((CmdM::HGetAll { key: c.key@, sort: c.sort })),
                Err(e) => parse_hgetall(v.model()) == Err::<CmdM, CommandError>(e),
            },
    {
        let mut ns: Vec<Vec<u8>> = Vec::new();
        ns.push(vec_name_hgetall());
        proof {
            assert(ns@.map_values(|n: Vec<u8>| n@) =~= seq![name_hgetall()]);
        }
        match validate_command(&v, &ns, Some(1)) {
            Err(e) => {
                return Err(e);
            },
            Ok(_) => {},
        }
        let ghost es = v.model()->0;
        let mut args = match extract_args(v, 1) {
            Ok(args) => args,
            Err(e) => {
                proof {
                    assert(false);
                }
                return Err(e);
            },
        };
        proof {
            assert(models(args@).len() == 1);
        }
        let ghost am = models(args@);
        let ghost avs = args@;
        let a0 = args.remove(0);
        proof {
            assert(a0 == avs[0]);
            assert(am[0] == avs[0].model());
            assert(am[0] == es.skip(1)[0]);
            assert(a0.model() == es[1]);
        }
        match take_text(a0) {
            Ok(key) => Ok(HGetAll { key, sort: false }),
            Err(e) => Err(e),
        }
    }
}


impl Echo {
    /// Parses a `echo` request into its typed fields.
    pub fn try_from(v: RespArray) -> (r: Result<Echo, CommandError>)
        ensures
            match r {
                Ok(c) => parse_echo(v.model()) == Ok::<CmdM, CommandError>((CmdM::Echo { message: c.message@ })),
                Err(e) => parse_echo(v.model()) == Err::<CmdM, CommandError>(e),
            },
    {
        let mut ns: Vec<Vec<u8>> = Vec::new();
        ns.push(vec_name_echo());
        proof {
            assert(ns@.map_values(|n: Vec<u8>| n@) =~= seq![name_echo()]);
        }
        match validate_command(&v, &ns, Some(1)) {
            Err(e) => {
                return Err(e);
            },
            Ok(_) => {},
        }
        let ghost es = v.model()->0;
        let mut args = match extract_args(v, 1) {
            Ok(args) => args,
            Err(e) => {
                proof {
                    assert(false);
                }
                return Err(e);
            },
        };
        proof {
            assert(models(args@).len() == 1);
        }
        let ghost am = models(args@);
        let ghost avs = args@;
        let a0 = args.remove(0);
        proof {
            assert(a0 == avs[0]);
            assert(am[0] == avs[0].model());
            assert(am[0] == es.skip(1)[0]);
            assert(a0.model() == es[1]);
        }
        match take_text(a0) {
            Ok(message) => Ok(Echo { message }),
            Err(e) => Err(e),
        }
    }
}


impl Sismember {
    /// Parses a `sismember` request into its typed fields.
    pub fn try_from(v: RespArray) -> (r: Result<Sismember, CommandError>)
        ensures
            match r {
                Ok(c) => parse_sismember(v.model()) == Ok::<CmdM, CommandError>((CmdM::Sismember { key: c.key@, member: c.member@ })),
                Err(e) => parse_sismember(v.model()) == Err::<CmdM, CommandError>(e),
            },
    {
        let mut ns: Vec<Vec<u8>> = Vec::new();
        ns.push(vec_name_sismember());
        proof {
            assert(ns@.map_values(|n: Vec<u8>| n@) =~= seq![name_sismember()]);
        }
        match validate_command(&v, &ns, Some(2)) {
            Err(e) => {
                return Err(e);
            },
            Ok(_) => {},
        }
        let ghost es = v.model()->0;
        let mut args = match extract_args(v, 1) {
            Ok(args) => args,
            Err(e) => {
                proof {
                    assert(false);
                }
                return Err(e);
            },
        };
        proof {
            assert(models(args@).len() == 2);
        }
        let ghost am = models(args@);
        let ghost avs = args@;
        let a0 = args.remove(0);
        let ghost avs1 = args@;
        let a1 = args.remove(0);
        proof {
            assert(a0 == avs[0]);
            assert(avs1 =~= avs.skip(1));
            assert(a1 == avs[1]);
            assert(am[0] == avs[0].model() && am[0] == es.skip(1)[0]);
            assert(am[1] == avs[1].model() && am[1] == es.skip(1)[1]);
            assert(a0.model() == es[1]);
            assert(a1.model() == es[2]);
        }
        match (take_text(a0), take_text(a1)) {
            (Ok(key), Ok(member)) => Ok(Sismember { key, member }),
            _ => Err(CommandError::InvalidArgument),
        }
    }
}


/// Takes a run of arguments that must all be present, valid-text bulk
/// strings.
#[verifier::loop_isolation(false)]
fn take_texts(args: Vec<RespFrame>) -> (r: Result<Vec<String>, CommandError>)
    ensures
        ({
            let am = models(args@);
            match r {
                Ok(v) => v@.len() == am.len() && forall|i: int|
                    0 <= i < am.len() ==> text_arg(#[trigger] am[i]) == Some(v@[i]@),
                Err(e) => e == CommandError::InvalidArgument && !(forall|i: int|
                    0 <= i < am.len() ==> text_arg(#[trigger] am[i]) is Some),
            }
        }),
{
    let ghost am = models(args@);
    let mut rest = args;
    let mut out: Vec<String> = Vec::new();
    let ghost k: int = 0;
    while rest.len() > 0
        invariant
            0 <= k <= am.len(),
            models(rest@) =~= am.skip(k),
            out@.len() == k,
            forall|i: int| 0 <= i < k ==> text_arg(#[trigger] am[i]) == Some(out@[i]@),
        decreases rest@.len(),
    {
        let ghost rvs = rest@;
        proof {
            assert(models(rvs) =~= am.skip(k));
            assert(models(rvs).len() > 0);
            assert(k < am.len());
        }
        let f = rest.remove(0);
        proof {
            assert(f == rvs[0]);
            assert(models(rvs)[0] == rvs[0].model());
            assert(models(rvs)[0] == am.skip(k)[0]);
            assert(f.model() == am[k]);
            assert(models(rest@) =~= models(rvs).skip(1));
            assert(models(rest@) =~= am.skip(k + 1));
        }
        match take_text(f) {
            Ok(s) => {
                out.push(s);
            },
            Err(e) => {
                proof {
                    assert(text_arg(am[k]) is None);
                }
                return Err(e);
            },
        }
        proof {
            k = k + 1;
        }
    }
    proof {
        assert(models(rest@).len() == 0);
        assert(k == am.len());
    }
    Ok(out)
}

impl HMGet {
    /// Parses an `hmget` request: a key and one or more fields.
    pub fn try_from(v: RespArray) -> (r: Result<HMGet, CommandError>)
        ensures
            match r {
                Ok(c) => parse_hmget(v.model()) == Ok::<CmdM, CommandError>(
                    (CmdM::HMGet { key: c.key@, fields: c.fields@.map_values(|s: String| s@) }),
                ),
                Err(e) => parse_hmget(v.model()) == Err::<CmdM, CommandError>(e),
            },
    {
        let mut ns: Vec<Vec<u8>> = Vec::new();
        ns.push(vec_name_hmget());
        proof {
            assert(ns@.map_values(|n: Vec<u8>| n@) =~= seq![name_hmget()]);
        }
        match validate_command(&v, &ns, None) {
            Err(e) => {
                return Err(e);
            },
            Ok(_) => {},
        }
        let ghost es = v.model()->0;
        let mut args = match extract_args(v, 1) {
            Ok(args) => args,
            Err(e) => {
                proof {
                    assert(false);
                }
                return Err(e);
            },
        };
        proof {
            assert(name_token_ok(es, 0, seq![name_hmget()][0]));
            assert(es.len() >= 1);
            assert(models(args@).len() == args@.len());
        }
        if args.len() == 0 {
            proof {
                assert(models(args@).len() == 0);
                assert(es.len() < 2);
            }
            return Err(CommandError::InvalidArgument);
        }
        proof {
            assert(es.len() >= 2);
        }
        let ghost avs = args@;
        let a0 = args.remove(0);
        proof {
            assert(a0 == avs[0]);
            assert(models(avs)[0] == avs[0].model());
            assert(a0.model() == es[1]);
            assert(models(args@) =~= models(avs).skip(1));
        }
        let key = match take_text(a0) {
            Ok(key) => key,
            Err(e) => {
                return Err(e);
            },
        };
        let ghost am = models(args@);
        proof {
            assert forall|i: int| 0 <= i < am.len() implies #[trigger] am[i] == es[2 + i] by {
                assert(am[i] == es.skip(1).skip(1)[i]);
            }
        }
        match take_texts(args) {
            Ok(fields) => {
                proof {
                    assert(text_args(es, 2) == Some(fields@.map_values(|s: String| s@))) by {
                        assert(forall|i: int|
                            2 <= i < es.len() ==> text_arg(#[trigger] es[i]) == text_arg(
                                am[i - 2],
                            ));
                        let fs = Seq::new((es.len() - 2) as nat, |i: int| text_arg(es[2 + i])->0);
                        assert(fields@.map_values(|s: String| s@) =~= fs);
                    }
                }
                Ok(HMGet { key, fields })
            },
            Err(e) => {
                proof {
                    assert(text_args(es, 2) is None) by {
                        let i = choose|i: int|
                            0 <= i < am.len() && !(text_arg(#[trigger] am[i]) is Some);
                        assert(text_arg(es[2 + i]) is None);
                    }
                }
                Err(e)
            },
        }
    }
}

impl Sadd {
    /// Parses a `sadd` request: a key and one or more members.
    pub fn try_from(v: RespArray) -> (r: Result<Sadd, CommandError>)
        ensures
            match r {
                Ok(c) => parse_sadd(v.model()) == Ok::<CmdM, CommandError>(
                    (CmdM::Sadd { key: c.key@, members: c.members@.map_values(|s: String| s@) }),
                ) && c.members@.len() <= i64::MAX,
                Err(e) => parse_sadd(v.model()) == Err::<CmdM, CommandError>(e),
            },
    {
        let mut ns: Vec<Vec<u8>> = Vec::new();
        ns.push(vec_name_sadd());
        proof {
            assert(ns@.map_values(|n: Vec<u8>| n@) =~= seq![name_sadd()]);
        }
        match validate_command(&v, &ns, None) {
            Err(e) => {
                return Err(e);
            },
            Ok(_) => {},
        }
        let ghost es = v.model()->0;
        let mut args = match extract_args(v, 1) {
            Ok(args) => args,
            Err(e) => {
                proof {
                    assert(false);
                }
                return Err(e);
            },
        };
        proof {
            assert(name_token_ok(es, 0, seq![name_sadd()][0]));
            assert(es.len() >= 1);
            assert(models(args@).len() == args@.len());
        }
        if args.len() == 0 {
            proof {
                assert(models(args@).len() == 0);
                assert(es.len() < 2);
            }
            return Err(CommandError::InvalidArgument);
        }
        proof {
            assert(es.len() >= 2);
        }
        let ghost avs = args@;
        let a0 = args.remove(0);
        proof {
            assert(a0 == avs[0]);
            assert(models(avs)[0] == avs[0].model());
            assert(a0.model() == es[1]);
            assert(models(args@) =~= models(avs).skip(1));
        }
        let key = match take_text(a0) {
            Ok(key) => key,
            Err(e) => {
                return Err(e);
            },
        };
        let ghost am = models(args@);
        proof {
            assert forall|i: int| 0 <= i < am.len() implies #[trigger] am[i] == es[2 + i] by {
                assert(am[i] == es.skip(1).skip(1)[i]);
            }
        }
        match take_texts(args) {
            Ok(members) => {
                proof {
                    assert(text_args(es, 2) == Some(members@.map_values(|s: String| s@))) by {
                        assert(forall|i: int|
                            2 <= i < es.len() ==> text_arg(#[trigger] es[i]) == text_arg(
                                am[i - 2],
                            ));
                        let fs = Seq::new((es.len() - 2) as nat, |i: int| text_arg(es[2 + i])->0);
                        assert(members@.map_values(|s: String| s@) =~= fs);
                    }
                }
                if members.len() as u64 > i64::MAX as u64 {
                    return Err(CommandError::InvalidArgument);
                }
                proof {
                    assert(members@.map_values(|s: String| s@).len() <= i64::MAX);
                }
                Ok(Sadd { key, members })
            },
            Err(e) => {
                proof {
                    assert(text_args(es, 2) is None) by {
                        let i = choose|i: int|
                            0 <= i < am.len() && !(text_arg(#[trigger] am[i]) is Some);
                        assert(text_arg(es[2 + i]) is None);
                    }
                }
                Err(e)
            },
        }
    }
}



/// Which command's grammar governs a request, by its first element's name.
pub open spec fn branch_parse(choice: u8, a: Option<Seq<FrameM>>) -> Result<CmdM, CommandError> {
    if choice == 0 {
        parse_get(a)
    } else if choice == 1 {
        parse_set(a)
    } else if choice == 2 {
        parse_hget(a)
    } else if choice == 3 {
        parse_hset(a)
    } else if choice == 4 {
        parse_hmget(a)
    } else if choice == 5 {
        parse_hgetall(a)
    } else if choice == 6 {
        parse_echo(a)
    } else if choice == 7 {
        parse_sadd(a)
    } else if choice == 8 {
        parse_sismember(a)
    } else if choice == 9 {
        Ok(CmdM::Unrecognized)
    } else {
        Err(CommandError::InvalidCommand)
    }
}

/// Reads the command name off a request and picks the grammar it falls
/// under.
#[verifier::rlimit(100)]
fn classify(v: &RespArray) -> (choice: u8)
    ensures
        parse_cmd(v.model()) == branch_parse(choice, v.model()),
{
    match &v.0 {
        None => 20,
        Some(frames) => {
            if frames.len() == 0 {
                21
            } else {
                match &frames[0] {
                    RespFrame::BulkString(b) => match &b.0 {
                        Some(d) => {
                            proof {
                                assert(models(frames@)[0] == frames@[0].model());
                            }
                            let n0 = vec_name_get();
                            let n1 = vec_name_set();
                            let n2 = vec_name_hget();
                            let n3 = vec_name_hset();
                            let n4 = vec_name_hmget();
                            let n5 = vec_name_hgetall();
                            let n6 = vec_name_echo();
                            let n7 = vec_name_sadd();
                            let n8 = vec_name_sismember();
                            if eq_lower(d.as_slice(), n0.as_slice()) {
                                0
                            } else if eq_lower(d.as_slice(), n1.as_slice()) {
                                1
                            } else if eq_lower(d.as_slice(), n2.as_slice()) {
                                2
                            } else if eq_lower(d.as_slice(), n3.as_slice()) {
                                3
                            } else if eq_lower(d.as_slice(), n4.as_slice()) {
                                4
                            } else if eq_lower(d.as_slice(), n5.as_slice()) {
                                5
                            } else if eq_lower(d.as_slice(), n6.as_slice()) {
                                6
                            } else if eq_lower(d.as_slice(), n7.as_slice()) {
                                7
                            } else if eq_lower(d.as_slice(), n8.as_slice()) {
                                8
                            } else {
                                9
                            }
                        },
                        None => 22,
                    },
                    _ => 22,
                }
            }
        },
    }
}

impl Command {
    /// Turns a request array into its typed command: dispatch on the first
    /// element's name, folded to lowercase; unknown names become the no-op
    /// command.
    pub fn try_from(v: RespArray) -> (r: Result<Command, CommandError>)
        ensures
            match r {
                Ok(c) => parse_cmd(v.model()) == Ok::<CmdM, CommandError>(c.model()),
                Err(e) => parse_cmd(v.model()) == Err::<CmdM, CommandError>(e),
            },
    {
        let choice = classify(&v);
        if choice == 0 {
            match Get::try_from(v) {
                Ok(c) => Ok(Command::Get(c)),
                Err(e) => Err(e),
            }
        } else if choice == 1 {
            match SetCmd::try_from(v) {
                Ok(c) => Ok(Command::SetCmd(c)),
                Err(e) => Err(e),
            }
        } else if choice == 2 {
            match HGet::try_from(v) {
                Ok(c) => Ok(Command::HGet(c)),
                Err(e) => Err(e),
            }
        } else if choice == 3 {
            match HSet::try_from(v) {
                Ok(c) => Ok(Command::HSet(c)),
                Err(e) => Err(e),
            }
        } else if choice == 4 {
            match HMGet::try_from(v) {
                Ok(c) => Ok(Command::HMGet(c)),
                Err(e) => Err(e),
            }
        } else if choice == 5 {
            match HGetAll::try_from(v) {
                Ok(c) => Ok(Command::HGetAll(c)),
                Err(e) => Err(e),
            }
        } else if choice == 6 {
            match Echo::try_from(v) {
                Ok(c) => Ok(Command::Echo(c)),
                Err(e) => Err(e),
            }
        } else if choice == 7 {
            match Sadd::try_from(v) {
                Ok(c) => Ok(Command::Sadd(c)),
                Err(e) => Err(e),
            }
        } else if choice == 8 {
            match Sismember::try_from(v) {
                Ok(c) => Ok(Command::Sismember(c)),
                Err(e) => Err(e),
            }
        } else if choice == 9 {
            Ok(Command::Unrecognized(Unrecognized))
        } else {
            Err(CommandError::InvalidCommand)
        }
    }

    /// Turns any decoded frame into a command: only arrays can be requests.
    pub fn try_from_frame(f: RespFrame) -> (r: Result<Command, CommandError>)
        ensures
            match r {
                Ok(c) => f.model() is Arr && parse_cmd(f.model()->Arr_0) == Ok::<
                    CmdM,
                    CommandError,
                >(c.model()),
                Err(e) => (f.model() is Arr && parse_cmd(f.model()->Arr_0) == Err::<
                    CmdM,
                    CommandError,
                >(e)) || (!(f.model() is Arr) && e == CommandError::InvalidCommand),
            },
    {
        match f {
            RespFrame::Array(a) => Command::try_from(a),
            _ => Err(CommandError::InvalidCommand),
        }
    }
}


// ---------- execution ----------

/// The fixed acknowledgement reply.
pub open spec fn ok_frame() -> FrameM {
    FrameM::Simple(seq![79u8, 75u8])
}

fn resp_ok() -> (r: RespFrame)
    ensures
        r.model() == ok_frame(),
{
    let mut v: Vec<u8> = Vec::new();
    v.push(79);
    v.push(75);
    proof {
        assert(v@ =~= seq![79u8, 75u8]);
    }
    RespFrame::SimpleString(SimpleString(v))
}

/// The store is unchanged.
pub open spec fn same_state(pre: Backend, post: Backend) -> bool {
    &&& post.scalars() == pre.scalars()
    &&& post.hashes() == pre.hashes()
    &&& post.sets() == pre.sets()
}

/// One reply slot per requested field: the stored value, or an absent bulk
/// string where the key or field is missing.
pub open spec fn hmget_reply(
    hs: Map<Seq<char>, Map<Seq<char>, FrameM>>,
    key: Seq<char>,
    fields: Seq<Seq<char>>,
) -> Seq<FrameM> {
    Seq::new(
        fields.len(),
        |i: int|
            if hs.contains_key(key) && hs[key].contains_key(fields[i]) {
                hs[key][fields[i]]
            } else {
                FrameM::Bulk(None)
            },
    )
}

/// Whether `a` comes no later than `b` in byte order.
pub open spec fn bytes_le(a: Seq<u8>, b: Seq<u8>) -> bool
    decreases a.len(),
{
    if a.len() == 0 {
        true
    } else if b.len() == 0 {
        false
    } else if a[0] < b[0] {
        true
    } else if a[0] > b[0] {
        false
    } else {
        bytes_le(a.skip(1), b.skip(1))
    }
}

pub open spec fn key_le(a: (String, RespFrame), b: (String, RespFrame)) -> bool {
    bytes_le(encode_utf8(a.0@), encode_utf8(b.0@))
}

pub open spec fn sorted_by_key(ps: Seq<(String, RespFrame)>) -> bool {
    forall|i: int, j: int| 0 <= i <= j < ps.len() ==> key_le(#[trigger] ps[i], #[trigger] ps[j])
}

/// The flat reply for a hash listing: field name then value, entry by entry.
pub open spec fn flatten_pairs(ps: Seq<(String, RespFrame)>) -> Seq<FrameM> {
    Seq::new(
        2 * ps.len(),
        |i: int|
            if i % 2 == 0 {
                FrameM::Bulk(Some(encode_utf8(ps[i / 2].0@)))
            } else {
                ps[i / 2].1.model()
            },
    )
}

/// The reply of a hash listing: a null array for an absent key; otherwise
/// the flattening of pairs that stand for exactly the key's entries, sorted
/// when asked, in no told order otherwise.
pub open spec fn hgetall_reply_ok(
    hs: Map<Seq<char>, Map<Seq<char>, FrameM>>,
    key: Seq<char>,
    sort: bool,
    r: FrameM,
) -> bool {
    if !hs.contains_key(key) {
        r == FrameM::Arr(None)
    } else {
        exists|ps: Seq<(String, RespFrame)>|
            #![trigger pairs_match(ps, hs[key])]
            pairs_match(ps, hs[key]) && (sort ==> sorted_by_key(ps)) && r == FrameM::Arr(
                Some(flatten_pairs(ps)),
            )
    }
}

/// What executing a command does to the store and replies.
pub open spec fn cmd_post(c: CmdM, pre: Backend, post: Backend, r: FrameM) -> bool {
    match c {
        CmdM::Get { key } => same_state(pre, post) && r == (if pre.scalars().contains_key(key) {
            pre.scalars()[key]
        } else {
            FrameM::Null
        }),
        CmdM::SetCmd { key, value } => post.scalars() == pre.scalars().insert(key, value)
            && post.hashes() == pre.hashes() && post.sets() == pre.sets() && r == ok_frame(),
        CmdM::HGet { key, field } => same_state(pre, post) && r == (if pre.hashes().contains_key(
            key,
        ) && pre.hashes()[key].contains_key(field) {
            pre.hashes()[key][field]
        } else {
            FrameM::Null
        }),
        CmdM::HSet { key, field, value } => ({
            let inner = if pre.hashes().contains_key(key) {
                pre.hashes()[key]
            } else {
                Map::<Seq<char>, FrameM>::empty()
            };
            &&& post.hashes() == pre.hashes().insert(key, inner.insert(field, value))
            &&& post.scalars() == pre.scalars()
            &&& post.sets() == pre.sets()
            &&& r == FrameM::Int(
                if inner.contains_key(field) {
                    0int
                } else {
                    1int
                },
            )
        }),
        CmdM::HMGet { key, fields } => same_state(pre, post) && r == FrameM::Arr(
            Some(hmget_reply(pre.hashes(), key, fields)),
        ),
        CmdM::HGetAll { key, sort } => same_state(pre, post) && hgetall_reply_ok(
            pre.hashes(),
            key,
            sort,
            r,
        ),
        CmdM::Echo { message } => same_state(pre, post) && r == FrameM::Bulk(
            Some(encode_utf8(message)),
        ),
        CmdM::Sadd { key, members } => ({
            let old_set = if pre.sets().contains_key(key) {
                pre.sets()[key]
            } else {
                Set::<Seq<char>>::empty()
            };
            let new_set = old_set + members.to_set();
            &&& (if members.len() == 0 {
                post.sets() == pre.sets()
            } else {
                post.sets() == pre.sets().insert(key, new_set)
            })
            &&& post.scalars() == pre.scalars()
            &&& post.hashes() == pre.hashes()
            &&& r == FrameM::Int(new_set.len() - old_set.len())
        }),
        CmdM::Sismember { key, member } => same_state(pre, post) && r == FrameM::Int(
            if pre.sets().contains_key(key) && pre.sets()[key].contains(member) {
                1int
            } else {
                0int
            },
        ),
        CmdM::Unrecognized => same_state(pre, post) && r == ok_frame(),
    }
}

impl Get {
    /// The stored scalar, or the explicit absence frame.
    pub fn execute(self, backend: &Backend) -> (r: RespFrame)
        ensures
            cmd_post((CmdM::Get { key: self.key@ }), *backend, *backend, r.model()),
    {
        match backend.get(self.key.as_str()) {
            Some(value) => value,
            None => RespFrame::Null(RespNull),
        }
    }
}

impl SetCmd {
    /// Overwrites the scalar unconditionally and acknowledges.
    pub fn execute(self, backend: &mut Backend) -> (r: RespFrame)
        requires
            old(backend).wf(),
        ensures
            cmd_post(
                (CmdM::SetCmd { key: self.key@, value: self.value.model() }),
                *old(backend),
                *final(backend),
                r.model(),
            ),
            final(backend).wf(),
    {
        backend.set(self.key, self.value);
        resp_ok()
    }
}

impl HGet {
    /// The field's value, or the explicit absence frame.
    pub fn execute(self, backend: &Backend) -> (r: RespFrame)
        ensures
            cmd_post(
                (CmdM::HGet { key: self.key@, field: self.field@ }),
                *backend,
                *backend,
                r.model(),
            ),
    {
        match backend.hget(self.key.as_str(), self.field.as_str()) {
            Some(value) => value,
            None => RespFrame::Null(RespNull),
        }
    }
}

impl HSet {
    /// Inserts or overwrites one field; the reply counts newly created
    /// fields.
    pub fn execute(self, backend: &mut Backend) -> (r: RespFrame)
        requires
            old(backend).wf(),
        ensures
            cmd_post(
                (CmdM::HSet { key: self.key@, field: self.field@, value: self.value.model() }),
                *old(backend),
                *final(backend),
                r.model(),
            ),
            final(backend).wf(),
    {
        RespFrame::Integer(backend.hset(self.key, self.field, self.value))
    }
}

impl HMGet {
    /// One reply slot per requested field; absence never shortens the reply.
    #[verifier::loop_isolation(false)]
    pub fn execute(self, backend: &Backend) -> (r: RespFrame)
        ensures
            cmd_post(
                (CmdM::HMGet { key: self.key@, fields: self.fields@.map_values(|s: String| s@) }),
                *backend,
                *backend,
                r.model(),
            ),
    {
        let data = backend.hmget(self.key.as_str(), &self.fields);
        let ghost reply = hmget_reply(
            backend.hashes(),
            self.key@,
            self.fields@.map_values(|s: String| s@),
        );
        let mut ret: Vec<RespFrame> = Vec::new();
        let mut k: usize = 0;
        let mut rest = data;
        while k < self.fields.len()
            invariant
                k <= self.fields@.len(),
                rest@.len() == self.fields@.len() - k,
                forall|i: int|
                    0 <= i < rest@.len() ==> ({
                        let fi = self.fields@.map_values(|s: String| s@)[k + i];
                        let hit = backend.hashes().contains_key(self.key@)
                            && backend.hashes()[self.key@].contains_key(fi);
                        match #[trigger] rest@[i] {
                            Some(f) => hit && f.model() == backend.hashes()[self.key@][fi],
                            None => !hit,
                        }
                    }),
                ret@.len() == k,
                models(ret@) =~= reply.take(k as int),
            decreases self.fields@.len() - k,
        {
            let ghost rvs = rest@;
            let item = rest.remove(0);
            proof {
                assert(item == rvs[0]);
                assert(rest@ =~= rvs.skip(1));
            }
            let frame = match item {
                Some(value) => value,
                None => RespFrame::BulkString(BulkString(None)),
            };
            ret.push(frame);
            proof {
                assert(models(ret@) =~= reply.take(k + 1));
            }
            k = k + 1;
        }
        proof {
            assert(reply.take(self.fields@.len() as int) =~= reply);
        }
        RespFrame::Array(RespArray(Some(ret)))
    }
}

impl Sadd {
    /// Adds the members; the reply counts those not already present.
    pub fn execute(self, backend: &mut Backend) -> (r: RespFrame)
        requires
            old(backend).wf(),
            self.members@.len() <= i64::MAX,
        ensures
            cmd_post(
                (CmdM::Sadd { key: self.key@, members: self.members@.map_values(|s: String| s@) }),
                *old(backend),
                *final(backend),
                r.model(),
            ),
            final(backend).wf(),
    {
        RespFrame::Integer(backend.sadd(self.key, self.members))
    }
}

impl Sismember {
    /// Whether the member is in the key's set, as an integer reply.
    pub fn execute(self, backend: &Backend) -> (r: RespFrame)
        ensures
            cmd_post(
                (CmdM::Sismember { key: self.key@, member: self.member@ }),
                *backend,
                *backend,
                r.model(),
            ),
    {
        RespFrame::Integer(backend.sismember(self.key.as_str(), self.member.as_str()))
    }
}

impl Echo {
    /// The message handed straight back; the store is never touched.
    pub fn execute(self, backend: &Backend) -> (r: RespFrame)
        ensures
            cmd_post((CmdM::Echo { message: self.message@ }), *backend, *backend, r.model()),
    {
        let bytes = self.message.as_str().as_bytes_vec();
        RespFrame::BulkString(BulkString(Some(bytes)))
    }
}

impl Unrecognized {
    /// A fixed acknowledgement, whatever the store holds.
    pub fn execute(self, backend: &Backend) -> (r: RespFrame)
        ensures
            cmd_post(CmdM::Unrecognized, *backend, *backend, r.model()),
    {
        resp_ok()
    }
}


// ---------- ordering of hash listings ----------

/// Byte order is total.
proof fn lemma_bytes_le_total(a: Seq<u8>, b: Seq<u8>)
    ensures
        bytes_le(a, b) || bytes_le(b, a),
    decreases a.len(),
{
    if a.len() == 0 || b.len() == 0 {
    } else if a[0] == b[0] {
        lemma_bytes_le_total(a.skip(1), b.skip(1));
    }
}

/// Byte order is transitive.
proof fn lemma_bytes_le_trans(a: Seq<u8>, b: Seq<u8>, c: Seq<u8>)
    requires
        bytes_le(a, b),
        bytes_le(b, c),
    ensures
        bytes_le(a, c),
    decreases a.len(),
{
    if a.len() == 0 {
    } else {
        if a[0] == b[0] && b[0] == c[0] {
            lemma_bytes_le_trans(a.skip(1), b.skip(1), c.skip(1));
        }
    }
}

/// Byte order compares below the first differing position.
proof fn lemma_bytes_le_skip(a: Seq<u8>, b: Seq<u8>, k: int)
    requires
        0 <= k <= a.len(),
        k <= b.len(),
        forall|i: int| 0 <= i < k ==> a[i] == b[i],
    ensures
        bytes_le(a, b) == bytes_le(a.skip(k), b.skip(k)),
    decreases k,
{
    if k == 0 {
        assert(a.skip(0) =~= a);
        assert(b.skip(0) =~= b);
    } else {
        assert(a.len() > 0 && b.len() > 0 && a[0] == b[0]);
        let a1 = a.skip(1);
        let b1 = b.skip(1);
        assert(forall|i: int| 0 <= i < k - 1 ==> a1[i] == b1[i]);
        lemma_bytes_le_skip(a1, b1, k - 1);
        assert(a1.skip(k - 1) =~= a.skip(k));
        assert(b1.skip(k - 1) =~= b.skip(k));
    }
}

/// Whether `a`'s key comes no later than `b`'s in byte order.
fn key_le_exec(a: &String, b: &String) -> (r: bool)
    ensures
        r == bytes_le(encode_utf8(a@), encode_utf8(b@)),
{
    let av = a.as_str().as_bytes();
    let bv = b.as_str().as_bytes();
    let mut k: usize = 0;
    while k < av.len() && k < bv.len()
        invariant
            k <= av@.len(),
            k <= bv@.len(),
            av@ == encode_utf8(a@),
            bv@ == encode_utf8(b@),
            forall|i: int| 0 <= i < k ==> av@[i] == bv@[i],
        decreases av@.len() - k,
    {
        if av[k] < bv[k] {
            proof {
                lemma_bytes_le_skip(av@, bv@, k as int);
            }
            return true;
        }
        if av[k] > bv[k] {
            proof {
                lemma_bytes_le_skip(av@, bv@, k as int);
            }
            return false;
        }
        k = k + 1;
    }
    proof {
        lemma_bytes_le_skip(av@, bv@, k as int);
    }
    k == av.len()
}

/// Moving one element of the tail to the end of the head keeps the whole a
/// listing of the same table.
proof fn lemma_pairs_match_move(
    head: Seq<(String, RespFrame)>,
    tail: Seq<(String, RespFrame)>,
    mi: int,
    mm: Map<Seq<char>, FrameM>,
)
    requires
        pairs_match(head + tail, mm),
        0 <= mi < tail.len(),
    ensures
        pairs_match(head.push(tail[mi]) + tail.remove(mi), mm),
{
    let c = head + tail;
    let c2 = head.push(tail[mi]) + tail.remove(mi);
    let h = head.len() as int;
    let f = |i: int|
        if i < h {
            i
        } else if i == h {
            h + mi
        } else if i - h - 1 < mi {
            i - 1
        } else {
            i
        };
    assert forall|i: int| 0 <= i < c2.len() implies #[trigger] c2[i] == c[f(i)] by {
        if i < h {
        } else if i == h {
            assert(c2[i] == tail[mi]);
        } else if i - h - 1 < mi {
            assert(c2[i] == tail.remove(mi)[i - h - 1]);
            assert(tail.remove(mi)[i - h - 1] == tail[i - h - 1]);
        } else {
            assert(c2[i] == tail.remove(mi)[i - h - 1]);
            assert(tail.remove(mi)[i - h - 1] == tail[i - h]);
        }
    }
    assert(c2.len() == c.len());
    assert forall|i: int| 0 <= i < c2.len() implies mm.contains_key(#[trigger] c2[i].0@)
        && c2[i].1.model() == mm[c2[i].0@] by {
        assert(c2[i] == c[f(i)]);
        assert(0 <= f(i) < c.len());
    }
    assert forall|i: int, j: int| 0 <= i < j < c2.len() implies c2[i].0@ != c2[j].0@ by {
        assert(c2[i] == c[f(i)]);
        assert(c2[j] == c[f(j)]);
        assert(f(i) != f(j));
        if f(i) < f(j) {
            assert(c[f(i)].0@ != c[f(j)].0@);
        } else {
            assert(c[f(j)].0@ != c[f(i)].0@);
        }
    }
}

/// Sorts a hash listing by field name, ascending in byte order.
#[verifier::loop_isolation(false)]
#[verifier::rlimit(60)]
fn sort_pairs(pairs: Vec<(String, RespFrame)>, Ghost(mm): Ghost<Map<Seq<char>, FrameM>>) -> (out:
    Vec<(String, RespFrame)>)
    requires
        pairs_match(pairs@, mm),
    ensures
        pairs_match(out@, mm),
        sorted_by_key(out@),
{
    let mut rem = pairs;
    let mut out: Vec<(String, RespFrame)> = Vec::new();
    proof {
        assert(out@ + rem@ =~= pairs@);
    }
    while rem.len() > 0
        invariant
            pairs_match(out@ + rem@, mm),
            sorted_by_key(out@),
            forall|i: int, j: int|
                0 <= i < out@.len() && 0 <= j < rem@.len() ==> key_le(
                    #[trigger] out@[i],
                    #[trigger] rem@[j],
                ),
        decreases rem@.len(),
    {
        let mut mi: usize = 0;
        let mut j: usize = 1;
        proof {
            lemma_bytes_le_total(encode_utf8(rem@[0].0@), encode_utf8(rem@[0].0@));
        }
        while j < rem.len()
            invariant
                mi < j <= rem@.len() || (j <= rem@.len() && mi == 0),
                mi < rem@.len(),
                forall|t: int| 0 <= t < j ==> key_le(rem@[mi as int], #[trigger] rem@[t]),
            decreases rem@.len() - j,
        {
            if key_le_exec(&rem[j].0, &rem[mi].0) {
                proof {
                    assert forall|t: int| 0 <= t < j implies key_le(
                        rem@[j as int],
                        #[trigger] rem@[t],
                    ) by {
                        lemma_bytes_le_trans(
                            encode_utf8(rem@[j as int].0@),
                            encode_utf8(rem@[mi as int].0@),
                            encode_utf8(rem@[t].0@),
                        );
                    }
                }
                mi = j;
                proof {
                    lemma_bytes_le_total(
                        encode_utf8(rem@[j as int].0@),
                        encode_utf8(rem@[j as int].0@),
                    );
                }
            } else {
                proof {
                    lemma_bytes_le_total(
                        encode_utf8(rem@[j as int].0@),
                        encode_utf8(rem@[mi as int].0@),
                    );
                }
            }
            proof {
                assert(key_le(rem@[mi as int], rem@[j as int]));
            }
            j = j + 1;
        }
        let ghost old_out = out@;
        let ghost old_rem = rem@;
        proof {
            lemma_pairs_match_move(old_out, old_rem, mi as int, mm);
        }
        let m = rem.remove(mi);
        out.push(m);
        proof {
            assert(out@ =~= old_out.push(m));
            assert(rem@ =~= old_rem.remove(mi as int));
            assert(out@ + rem@ =~= old_out.push(old_rem[mi as int]) + old_rem.remove(mi as int));
            assert forall|i: int, j2: int|
                0 <= i < out@.len() && 0 <= j2 < rem@.len() implies key_le(
                #[trigger] out@[i],
                #[trigger] rem@[j2],
            ) by {
                let orig = if j2 < mi {
                    j2
                } else {
                    j2 + 1
                };
                assert(rem@[j2] == old_rem[orig]);
                if i < old_out.len() {
                    assert(key_le(old_out[i], old_rem[orig]));
                } else {
                    assert(out@[i] == old_rem[mi as int]);
                    assert(key_le(old_rem[mi as int], old_rem[orig]));
                }
            }
            assert forall|i: int, j2: int| 0 <= i <= j2 < out@.len() implies key_le(
                #[trigger] out@[i],
                #[trigger] out@[j2],
            ) by {
                if j2 < old_out.len() {
                } else if i < old_out.len() {
                    assert(key_le(old_out[i], old_rem[mi as int]));
                } else {
                    assert(out@[i] == old_rem[mi as int]);
                    lemma_bytes_le_total(
                        encode_utf8(old_rem[mi as int].0@),
                        encode_utf8(old_rem[mi as int].0@),
                    );
                }
            }
        }
    }
    proof {
        assert(out@ + rem@ =~= out@);
    }
    out
}

impl HGetAll {
    /// All entries of the key's hash, flattened to name then value, sorted
    /// by name when the deterministic-order flag is set; a null array when
    /// the key has no hash.
    pub fn execute(self, backend: &Backend) -> (r: RespFrame)
        ensures
            cmd_post(
                (CmdM::HGetAll { key: self.key@, sort: self.sort }),
                *backend,
                *backend,
                r.model(),
            ),
    {
        let ghost hs = backend.hashes();
        match backend.hgetall(self.key.as_str()) {
            None => RespFrame::Array(RespArray(None)),
            Some(pairs) => {
                let ghost mm = hs[self.key@];
                let data = if self.sort {
                    sort_pairs(pairs, Ghost(mm))
                } else {
                    pairs
                };
                let ghost ps = data@;
                let mut ret: Vec<RespFrame> = Vec::new();
                let mut rest = data;
                let ghost mut k: int = 0;
                proof {
                    assert(models(ret@) =~= flatten_pairs(ps).take(0));
                }
                while rest.len() > 0
                    invariant
                        0 <= k,
                        k + rest@.len() == ps.len(),
                        rest@ =~= ps.skip(k),
                        ret@.len() == 2 * k,
                        models(ret@) =~= flatten_pairs(ps).take(2 * k),
                        pairs_match(ps, mm),
                        self.sort ==> sorted_by_key(ps),
                    decreases rest@.len(),
                {
                    let ghost rvs = rest@;
                    let (name, value) = rest.remove(0);
                    proof {
                        assert((name, value) == rvs[0]);
                        assert(rvs[0] == ps[k]);
                        assert(rest@ =~= rvs.skip(1));
                        assert(rest@ =~= ps.skip(k + 1));
                    }
                    let name_bytes = name.as_str().as_bytes_vec();
                    ret.push(RespFrame::BulkString(BulkString(Some(name_bytes))));
                    ret.push(value);
                    proof {
                        assert(models(ret@) =~= flatten_pairs(ps).take(2 * (k + 1)));
                        k = k + 1;
                    }
                }
                proof {
                    assert(flatten_pairs(ps).take(2 * k) =~= flatten_pairs(ps));
                    assert(pairs_match(ps, hs[self.key@]) && (self.sort ==> sorted_by_key(ps))
                        && FrameM::Arr(Some(models(ret@))) == FrameM::Arr(
                        Some(flatten_pairs(ps)),
                    ));
                }
                RespFrame::Array(RespArray(Some(ret)))
            },
        }
    }
}

impl Command {
    /// Whether a command is small enough to execute on this machine.
    pub open spec fn bounded(self) -> bool {
        match self {
            Command::Sadd(c) => c.members@.len() <= i64::MAX,
            _ => true,
        }
    }

    /// Executes the command against the store: one exhaustive dispatch over
    /// the closed command set.
    pub fn execute(self, backend: &mut Backend) -> (r: RespFrame)
        requires
            old(backend).wf(),
            self.bounded(),
        ensures
            cmd_post(self.model(), *old(backend), *final(backend), r.model()),
            final(backend).wf(),
    {
        match self {
            Command::Get(c) => c.execute(backend),
            Command::SetCmd(c) => c.execute(backend),
            Command::HGet(c) => c.execute(backend),
            Command::HSet(c) => c.execute(backend),
            Command::HMGet(c) => c.execute(backend),
            Command::HGetAll(c) => c.execute(backend),
            Command::Echo(c) => c.execute(backend),
            Command::Sadd(c) => c.execute(backend),
            Command::Sismember(c) => c.execute(backend),
            Command::Unrecognized(c) => c.execute(backend),
        }
    }
}

} // verus!

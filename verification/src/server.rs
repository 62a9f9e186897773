//! The connection handler's logic: reading a decoded frame as a
//! command, running it against the store, and producing the reply —
//! including a typed, recoverable error for every malformed or unknown
//! request, so that one bad request never takes the process down.

use vstd::prelude::*;

verus! {

use crate::cmds;
use crate::cmds::list_reply;
use crate::cmds::ok_text;
use crate::cmds::pong_text;
use crate::db::State;
use crate::resp::models_of;
use crate::resp::resp_model;
use crate::resp::spec_encode;
use crate::resp::spec_parse;
use crate::resp::parse;
use crate::resp::RespModel;
use crate::resp::RespValue;
use crate::resp::utils::ascii_lower;
use crate::resp::utils::bytes_eq;
use crate::resp::utils::parse_digits_limited;
use crate::resp::utils::spec_parse_u64;
use crate::resp::utils::to_lower;

/// Why a decoded request could not be executed.  Each of these becomes
/// an error reply on the connection, never a crash.
#[derive(Clone, Copy, Debug, PartialEq, Eq, Structural)]
pub enum CmdError {
    /// The request frame was not an array.
    NotAnArray,
    /// The array was empty, or a required positional argument is
    /// missing.
    MissingArgument,
    /// A name, key or value was expected as a bulk string but was
    /// another frame kind.
    ExpectedBulkString,
    /// A numeric argument was not an unsigned decimal numeral.
    BadNumber,
    /// The requested expiry lies too far in the future to represent.
    ExpiryTooLarge,
    /// The command name is none that the store serves.
    UnknownCommand,
}

/// The lower-cased name of the `PING` command.
pub open spec fn ping_name() -> Seq<u8> {
    seq![112u8, 105u8, 110u8, 103u8]
}

/// The lower-cased name of the `ECHO` command.
pub open spec fn echo_name() -> Seq<u8> {
    seq![101u8, 99u8, 104u8, 111u8]
}

/// The lower-cased name of the `GET` command.
pub open spec fn get_name() -> Seq<u8> {
    seq![103u8, 101u8, 116u8]
}

/// The lower-cased name of the `SET` command.
pub open spec fn set_name() -> Seq<u8> {
    seq![115u8, 101u8, 116u8]
}

/// The lower-cased name of the `LIST` command.
pub open spec fn list_name() -> Seq<u8> {
    seq![108u8, 105u8, 115u8, 116u8]
}

/// A request as the dispatch table understands it.
pub enum Request {
    /// `PING`.
    Ping,
    /// `ECHO value`: the argument echoed back.
    Echo(RespModel),
    /// `GET key`.
    Get(Seq<u8>),
    /// `SET key value [_ PX-milliseconds]`: the optional expiry
    /// duration is the fourth positional argument.
    Store(Seq<u8>, Seq<u8>, Option<int>),
    /// `LIST [limit]`.
    List(Option<int>),
    /// No command to run; the error to reply with.
    Invalid(CmdError),
}

/// Reads a command out of its lower-cased name and positional
/// arguments.
pub open spec fn classify_named(name: Seq<u8>, args: Seq<RespModel>) -> Request {
    if name == ping_name() {
        Request::Ping
    } else if name == echo_name() {
        if args.len() >= 1 {
            Request::Echo(args[0])
        } else {
            Request::Invalid(CmdError::MissingArgument)
        }
    } else if name == get_name() {
        if args.len() >= 1 {
            match args[0] {
                RespModel::BulkString(k) => Request::Get(k),
                _ => Request::Invalid(CmdError::ExpectedBulkString),
            }
        } else {
            Request::Invalid(CmdError::MissingArgument)
        }
    } else if name == set_name() {
        if args.len() >= 2 {
            match args[0] {
                RespModel::BulkString(k) => match args[1] {
                    RespModel::BulkString(v) => if args.len() >= 4 {
                        match args[3] {
                            RespModel::BulkString(ms) => match spec_parse_u64(ms) {
                                Some(d) => Request::Store(k, v, Some(d)),
                                None => Request::Invalid(CmdError::BadNumber),
                            },
                            _ => Request::Invalid(CmdError::ExpectedBulkString),
                        }
                    } else {
                        Request::Store(k, v, None)
                    },
                    _ => Request::Invalid(CmdError::ExpectedBulkString),
                },
                _ => Request::Invalid(CmdError::ExpectedBulkString),
            }
        } else {
            Request::Invalid(CmdError::MissingArgument)
        }
    } else if name == list_name() {
        if args.len() >= 1 {
            match args[0] {
                RespModel::BulkString(ms) => match spec_parse_u64(ms) {
                    Some(l) => Request::List(Some(l)),
                    None => Request::Invalid(CmdError::BadNumber),
                },
                _ => Request::Invalid(CmdError::ExpectedBulkString),
            }
        } else {
            Request::List(None)
        }
    } else {
        Request::Invalid(CmdError::UnknownCommand)
    }
}

/// Reads a command out of a decoded frame: the frame must be an array,
/// its first element a bulk string holding the command name, which is
/// case-normalized; the remaining elements are positional arguments.
pub open spec fn classify(m: RespModel) -> Request {
    match m {
        RespModel::Array(elems) => if elems.len() == 0 {
            Request::Invalid(CmdError::MissingArgument)
        } else {
            match elems[0] {
                RespModel::BulkString(raw) => classify_named(ascii_lower(raw), elems.skip(1)),
                _ => Request::Invalid(CmdError::ExpectedBulkString),
            }
        },
        _ => Request::Invalid(CmdError::NotAnArray),
    }
}

/// What `dispatch` does for the request `m` against a store in state
/// `pre` at instant `now`: the store's next state and the outcome,
/// either `(reply, wake-the-reclaimer)` or the error to reply with.
pub open spec fn dispatch_post(
    pre: State,
    post: State,
    m: RespModel,
    now: u64,
    r: Result<(RespModel, bool), CmdError>,
) -> bool {
    match classify(m) {
        Request::Ping => r == Ok::<(RespModel, bool), CmdError>((RespModel::Text(pong_text()), false))
            && post.contents() == pre.contents() && post.index() == pre.index(),
        Request::Echo(v) => r == Ok::<(RespModel, bool), CmdError>((v, false)) && post.contents()
            == pre.contents() && post.index() == pre.index(),
        Request::Get(k) => post.contents() == pre.contents() && post.index() == pre.index()
            && (match r {
            Ok((v, n)) => !n && (if pre.contents().dom().contains(k) {
                v == RespModel::BulkString(pre.contents()[k].0)
            } else {
                v == RespModel::Null
            }),
            Err(_) => false,
        }),
        Request::Store(k, v, e) => {
            match e {
                Some(d) => if now + d <= u64::MAX {
                    let w = (now + d) as u64;
                    &&& post.contents() == pre.contents().insert(k, (v, Some(w)))
                    &&& r == Ok::<(RespModel, bool), CmdError>(
                        (
                            RespModel::Text(ok_text()),
                            match pre.next_expiry() {
                                Some(first) => w < first,
                                None => true,
                            },
                        ),
                    )
                } else {
                    r == Err::<(RespModel, bool), CmdError>(CmdError::ExpiryTooLarge)
                        && post.contents() == pre.contents() && post.index() == pre.index()
                },
                None => post.contents() == pre.contents().insert(k, (v, None)) && r == Ok::<
                    (RespModel, bool),
                    CmdError,
                >((RespModel::Text(ok_text()), false)),
            }
        },
        Request::List(l) => post.contents() == pre.contents() && post.index() == pre.index()
            && (match r {
            Ok((v, n)) => !n && (v matches RespModel::Array(elems) && list_reply(
                pre.entries_seq(),
                l,
                elems,
            )),
            Err(_) => false,
        }),
        Request::Invalid(e) => r == Err::<(RespModel, bool), CmdError>(e) && post.contents()
            == pre.contents() && post.index() == pre.index(),
    }
}

/// Takes the payload out of a bulk-string frame; any other frame kind
/// is refused.
pub fn unpack_bulk_str(value: RespValue) -> (r: Result<Vec<u8>, CmdError>)
    ensures
        match value {
            RespValue::BulkString(b) => r is Ok && r.unwrap()@ == b@,
            _ => r == Err::<Vec<u8>, CmdError>(CmdError::ExpectedBulkString),
        },
{
    match value {
        RespValue::BulkString(b) => Ok(b),
        _ => Err(CmdError::ExpectedBulkString),
    }
}

/// Reads a bulk-string argument as an unsigned decimal number.
pub fn unpack_u64(value: RespValue) -> (r: Result<u64, CmdError>)
    ensures
        match value {
            RespValue::BulkString(b) => match spec_parse_u64(b@) {
                Some(v) => r is Ok && r.unwrap() == v,
                None => r == Err::<u64, CmdError>(CmdError::BadNumber),
            },
            _ => r == Err::<u64, CmdError>(CmdError::ExpectedBulkString),
        },
{
    let b = match unpack_bulk_str(value) {
        Ok(b) => b,
        Err(e) => {
            return Err(e);
        },
    };
    match parse_digits_limited(b.as_slice(), u64::MAX) {
        Ok(v) => Ok(v),
        Err(_) => Err(CmdError::BadNumber),
    }
}

/// Splits a request frame into its case-normalized command name and its
/// positional arguments.  The request must be an array whose first
/// element is a bulk string.
pub fn extract_command(value: RespValue) -> (r: Result<(Vec<u8>, Vec<RespValue>), CmdError>)
    ensures
        match resp_model(value) {
            RespModel::Array(elems) => if elems.len() == 0 {
                r == Err::<(Vec<u8>, Vec<RespValue>), CmdError>(CmdError::MissingArgument)
            } else {
                match elems[0] {
                    RespModel::BulkString(raw) => r is Ok && r.unwrap().0@ == ascii_lower(raw)
                        && models_of(r.unwrap().1@) == elems.skip(1),
                    _ => r == Err::<(Vec<u8>, Vec<RespValue>), CmdError>(
                        CmdError::ExpectedBulkString,
                    ),
                }
            },
            _ => r == Err::<(Vec<u8>, Vec<RespValue>), CmdError>(CmdError::NotAnArray),
        },
{
    match value {
        RespValue::Array(mut arr) => {
            if arr.len() == 0 {
                return Err(CmdError::MissingArgument);
            }
            let ghost arr0 = arr@;
            let first = arr.remove(0);
            let name = match unpack_bulk_str(first) {
                Ok(b) => b,
                Err(e) => {
                    return Err(e);
                },
            };
            let lowered = to_lower(name.as_slice());
            proof {
                arr0.remove_ensures(0);
                assert(models_of(arr@) =~= models_of(arr0).skip(1));
            }
            Ok((lowered, arr))
        },
        _ => Err(CmdError::NotAnArray),
    }
}

/// The bytes of [`ping_name`].
fn ping_bytes() -> (r: Vec<u8>)
    ensures
        r@ == ping_name(),
{
    let mut v: Vec<u8> = Vec::new();
    v.push(112);
    v.push(105);
    v.push(110);
    v.push(103);
    proof {
        assert(v@ =~= ping_name());
    }
    v
}

/// The bytes of [`echo_name`].
fn echo_bytes() -> (r: Vec<u8>)
    ensures
        r@ == echo_name(),
{
    let mut v: Vec<u8> = Vec::new();
    v.push(101);
    v.push(99);
    v.push(104);
    v.push(111);
    proof {
        assert(v@ =~= echo_name());
    }
    v
}

/// The bytes of [`get_name`].
fn get_bytes() -> (r: Vec<u8>)
    ensures
        r@ == get_name(),
{
    let mut v: Vec<u8> = Vec::new();
    v.push(103);
    v.push(101);
    v.push(116);
    proof {
        assert(v@ =~= get_name());
    }
    v
}

/// The bytes of [`set_name`].
fn set_bytes() -> (r: Vec<u8>)
    ensures
        r@ == set_name(),
{
    let mut v: Vec<u8> = Vec::new();
    v.push(115);
    v.push(101);
    v.push(116);
    proof {
        assert(v@ =~= set_name());
    }
    v
}

/// The bytes of [`list_name`].
fn list_bytes() -> (r: Vec<u8>)
    ensures
        r@ == list_name(),
{
    let mut v: Vec<u8> = Vec::new();
    v.push(108);
    v.push(105);
    v.push(115);
    v.push(116);
    proof {
        assert(v@ =~= list_name());
    }
    v
}

/// The dispatch table of the connection handler: runs one decoded
/// request against the store at instant `now` (milliseconds).  On
/// success the reply frame and the reclaimer wake flag come back;
/// every malformed or unknown request comes back as a typed error, so
/// the connection can answer it and carry on.
pub fn dispatch(storage: &mut State, request: RespValue, now: u64) -> (r: Result<
    (RespValue, bool),
    CmdError,
>)
    requires
        old(storage).wf(),
    ensures
        final(storage).wf(),
        final(storage).spec_shutdown() == old(storage).spec_shutdown(),
        dispatch_post(
            *old(storage),
            *final(storage),
            resp_model(request),
            now,
            match r {
                Ok((v, n)) => Ok::<(RespModel, bool), CmdError>((resp_model(v), n)),
                Err(e) => Err::<(RespModel, bool), CmdError>(e),
            },
        ),
{
    let ghost m = resp_model(request);
    let (name, mut args) = match extract_command(request) {
        Ok(p) => p,
        Err(e) => {
            return Err(e);
        },
    };
    let ghost args0 = args@;
    proof {
        assert(classify(m) == classify_named(name@, models_of(args0)));
    }
    if bytes_eq(name.as_slice(), ping_bytes().as_slice()) {
        Ok((cmds::ping(), false))
    } else if bytes_eq(name.as_slice(), echo_bytes().as_slice()) {
        if args.len() == 0 {
            return Err(CmdError::MissingArgument);
        }
        let v = args.remove(0);
        proof {
            assert(resp_model(v) == models_of(args0)[0]);
        }
        Ok((v, false))
    } else if bytes_eq(name.as_slice(), get_bytes().as_slice()) {
        if args.len() == 0 {
            return Err(CmdError::MissingArgument);
        }
        let first = args.remove(0);
        proof {
            assert(resp_model(first) == models_of(args0)[0]);
        }
        let k = match unpack_bulk_str(first) {
            Ok(k) => k,
            Err(e) => {
                return Err(e);
            },
        };
        Ok((cmds::get(storage, k.as_slice()), false))
    } else if bytes_eq(name.as_slice(), set_bytes().as_slice()) {
        if args.len() < 2 {
            return Err(CmdError::MissingArgument);
        }
        let first = args.remove(0);
        let second = args.remove(0);
        proof {
            assert(resp_model(first) == models_of(args0)[0]);
            assert(resp_model(second) == models_of(args0)[1]);
        }
        let key = match unpack_bulk_str(first) {
            Ok(k) => k,
            Err(e) => {
                return Err(e);
            },
        };
        let value = match unpack_bulk_str(second) {
            Ok(v) => v,
            Err(e) => {
                return Err(e);
            },
        };
        let expiry: Option<u64> = if args.len() >= 2 {
            let fourth = args.remove(1);
            proof {
                assert(resp_model(fourth) == models_of(args0)[3]);
            }
            match unpack_u64(fourth) {
                Ok(d) => Some(d),
                Err(e) => {
                    return Err(e);
                },
            }
        } else {
            None
        };
        if let Some(d) = expiry {
            if now > u64::MAX - d {
                return Err(CmdError::ExpiryTooLarge);
            }
        }
        let (reply, notify) = cmds::set(storage, key, value, expiry, now);
        Ok((reply, notify))
    } else if bytes_eq(name.as_slice(), list_bytes().as_slice()) {
        if args.len() == 0 {
            return Ok((cmds::list(storage, None), false));
        }
        let first = args.remove(0);
        proof {
            assert(resp_model(first) == models_of(args0)[0]);
        }
        let l = match unpack_u64(first) {
            Ok(l) => l,
            Err(e) => {
                return Err(e);
            },
        };
        let lim: usize = if l > (usize::MAX as u64) {
            usize::MAX
        } else {
            l as usize
        };
        let reply = cmds::list(storage, Some(lim));
        proof {
            crate::db::lemma_entries_len_bound(*storage);
        }
        Ok((reply, false))
    } else {
        Err(CmdError::UnknownCommand)
    }
}

/// The error code sent for a malformed frame (a protocol error).
pub const PROTOCOL_ERROR_CODE: i64 = -1;

/// The error code sent when a reply cannot ride the response path (an
/// array reply, which encoding does not support).
pub const UNENCODABLE_REPLY_CODE: i64 = -8;

/// The reply code of each request error.
pub open spec fn spec_error_code(e: CmdError) -> int {
    match e {
        CmdError::NotAnArray => -2,
        CmdError::MissingArgument => -3,
        CmdError::ExpectedBulkString => -4,
        CmdError::BadNumber => -5,
        CmdError::ExpiryTooLarge => -6,
        CmdError::UnknownCommand => -7,
    }
}

/// Builds the best-effort error reply for a failed request: an
/// integer/error frame carrying the error's code.
pub fn error_reply(e: &CmdError) -> (r: RespValue)
    ensures
        r@ == RespModel::Integer(spec_error_code(*e)),
{
    match e {
        CmdError::NotAnArray => RespValue::Integer(-2),
        CmdError::MissingArgument => RespValue::Integer(-3),
        CmdError::ExpectedBulkString => RespValue::Integer(-4),
        CmdError::BadNumber => RespValue::Integer(-5),
        CmdError::ExpiryTooLarge => RespValue::Integer(-6),
        CmdError::UnknownCommand => RespValue::Integer(-7),
    }
}

/// Serves one request buffer read from a connection: decodes the
/// frame, runs the command against the store, and encodes the reply.
/// Every failure — a malformed frame, a malformed or unknown command,
/// or a reply that the response path cannot encode (an array, as a
/// `LIST` reply is) — becomes an encoded error reply rather than a
/// crash.  The first flag reports whether the reclaimer must be
/// woken; the second whether the connection must close, which is so
/// exactly for a malformed frame, since the byte stream cannot be
/// resynchronized after one — command errors leave it usable.
pub fn handle_frame(storage: &mut State, buffer: &[u8], now: u64) -> (r: (Vec<u8>, bool, bool))
    requires
        old(storage).wf(),
    ensures
        final(storage).wf(),
        final(storage).spec_shutdown() == old(storage).spec_shutdown(),
        match spec_parse(buffer@) {
            None => r.0@ == spec_encode(RespModel::Integer(PROTOCOL_ERROR_CODE as int)) && r.1
                == false && r.2 == true && final(storage).contents() == old(storage).contents()
                && final(storage).index() == old(storage).index(),
            Some((m, _)) => exists|res: Result<(RespModel, bool), CmdError>|
                #[trigger] dispatch_post(*old(storage), *final(storage), m, now, res) && (match res {
                    Ok((v, n)) => r.1 == n && r.2 == false && (if v is Array {
                        r.0@ == spec_encode(RespModel::Integer(UNENCODABLE_REPLY_CODE as int))
                    } else {
                        r.0@ == spec_encode(v)
                    }),
                    Err(e) => r.1 == false && r.2 == false && r.0@ == spec_encode(
                        RespModel::Integer(spec_error_code(e)),
                    ),
                }),
        },
{
    let req = match parse(buffer) {
        Ok((v, _consumed)) => v,
        Err(_) => {
            let reply = RespValue::Integer(PROTOCOL_ERROR_CODE);
            let bytes = match reply.serializer() {
                Ok(b) => b,
                Err(_) => {
                    proof {
                        assert(false);
                    }
                    Vec::new()
                },
            };
            return (bytes, false, true);
        },
    };
    match dispatch(storage, req, now) {
        Ok((v, n)) => {
            match v.serializer() {
                Ok(b) => (b, n, false),
                Err(_) => {
                    let reply = RespValue::Integer(UNENCODABLE_REPLY_CODE);
                    let bytes = match reply.serializer() {
                        Ok(b) => b,
                        Err(_) => {
                            proof {
                                assert(false);
                            }
                            Vec::new()
                        },
                    };
                    (bytes, n, false)
                },
            }
        },
        Err(e) => {
            let reply = error_reply(&e);
            let bytes = match reply.serializer() {
                Ok(b) => b,
                Err(_) => {
                    proof {
                        assert(false);
                    }
                    Vec::new()
                },
            };
            (bytes, false, false)
        },
    }
}

} // verus!

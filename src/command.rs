use vstd::prelude::*;
use vstd::string::{StrSliceExecFns, StringExecFns};
use vstd::utf8::encode_utf8;
use crate::decode::{decode, spec_decode, DecodeError, CR, LF, SIMPLE_MARK, BULK_MARK};
use crate::store::{after_set, lemma_set_then_get, live_value, Store, StoreMap};
use crate::value::{extract_string, get_command, spec_command, text_of, CommandError, SpecValue, Value, values_view};

verus! {

/// Why a request gets an error reply instead of being run.
#[derive(Clone, Copy, PartialEq, Eq, Debug, Structural)]
pub enum RequestError {
    /// The frame breaks the wire grammar.
    Protocol,
    /// The frame is not a command.
    Command(CommandError),
    /// A known command with the wrong number or kind of arguments.
    Argument,
    /// A command name that the server does not know.
    UnknownCommand,
}

/// A command ready to run.
#[derive(PartialEq, Debug)]
pub enum Command {
    Ping,
    /// Replies with the arguments written one after another.
    Echo(Vec<String>),
    SetValue { key: String, value: String, ttl_ms: Option<u64> },
    Get { key: String },
}

pub enum SpecCommand {
    Ping,
    Echo(Seq<Seq<char>>),
    SetValue { key: Seq<char>, value: Seq<char>, ttl_ms: Option<u64> },
    Get { key: Seq<char> },
}

impl View for Command {
    type V = SpecCommand;

    open spec fn view(&self) -> SpecCommand {
        match self {
            Command::Ping => SpecCommand::Ping,
            Command::Echo(parts) => SpecCommand::Echo(Seq::new(parts@.len(), |i: int| parts@[i]@)),
            Command::SetValue { key, value, ttl_ms } => SpecCommand::SetValue { key: key@, value: value@, ttl_ms: *ttl_ms },
            Command::Get { key } => SpecCommand::Get { key: key@ },
        }
    }
}

/// `c` is the character `w` or, where `w` is an upper-case letter, its lower-case form.
pub open spec fn upper_matches(c: char, w: char) -> bool {
    c == w || ('a' <= c <= 'z' && c as u32 == w as u32 + 32)
}

/// `s` spells the upper-case keyword `w`, ignoring ASCII case.
pub open spec fn keyword_eq(s: Seq<char>, w: Seq<char>) -> bool {
    s.len() == w.len() && forall|i: int| 0 <= i < s.len() ==> upper_matches(#[trigger] s[i], w[i])
}

pub open spec fn is_digit_char(c: char) -> bool {
    '0' <= c <= '9'
}

/// The number that a sequence of decimal digit characters writes.
pub open spec fn chars_value(s: Seq<char>) -> nat
    decreases s.len(),
{
    if s.len() == 0 {
        0
    } else {
        chars_value(s.drop_last()) * 10 + (s.last() as u32 - 48) as nat
    }
}

/// The digits of a millisecond count: the text without one leading `+`.
pub open spec fn millis_digits(s: Seq<char>) -> Seq<char> {
    if s.len() > 0 && s[0] == '+' {
        s.drop_first()
    } else {
        s
    }
}

/// An optional `+` and a non-empty run of decimal digits whose value fits in `u64`.
pub open spec fn is_millis(s: Seq<char>) -> bool {
    let d = millis_digits(s);
    d.len() > 0 && (forall|i: int| 0 <= i < d.len() ==> is_digit_char(#[trigger] d[i])) && chars_value(d)
        <= u64::MAX
}

/// The time to live that the arguments of `SET` name: `PX` and a number
/// as the third and fourth arguments.
pub open spec fn spec_ttl(args: Seq<SpecValue>) -> Option<u64> {
    if args.len() >= 4 && keyword_eq(text_of(args[2])->0, "PX"@) && is_millis(text_of(args[3])->0) {
        Some(chars_value(millis_digits(text_of(args[3])->0)) as u64)
    } else {
        None
    }
}

pub open spec fn all_texts(args: Seq<SpecValue>) -> bool {
    forall|i: int| 0 <= i < args.len() ==> text_of(#[trigger] args[i]) is Some
}

/// What a command name and its arguments ask for.
pub open spec fn spec_parse_command(name: Seq<char>, args: Seq<SpecValue>) -> Result<SpecCommand, RequestError> {
    if keyword_eq(name, "PING"@) {
        if args.len() == 0 {
            Ok(SpecCommand::Ping)
        } else {
            Err(RequestError::Argument)
        }
    } else if keyword_eq(name, "ECHO"@) {
        if args.len() > 0 && all_texts(args) {
            Ok(SpecCommand::Echo(Seq::new(args.len(), |i: int| text_of(args[i])->0)))
        } else {
            Err(RequestError::Argument)
        }
    } else if keyword_eq(name, "SET"@) {
        if args.len() >= 2 && all_texts(args) {
            Ok(SpecCommand::SetValue { key: text_of(args[0])->0, value: text_of(args[1])->0, ttl_ms: spec_ttl(args) })
        } else {
            Err(RequestError::Argument)
        }
    } else if keyword_eq(name, "GET"@) {
        if args.len() == 1 && text_of(args[0]) is Some {
            Ok(SpecCommand::Get { key: text_of(args[0])->0 })
        } else {
            Err(RequestError::Argument)
        }
    } else {
        Err(RequestError::UnknownCommand)
    }
}

pub open spec fn crlf() -> Seq<u8> {
    seq![CR, LF]
}

/// A simple-string reply carrying `s`.
pub open spec fn simple_reply(s: Seq<char>) -> Seq<u8> {
    seq![SIMPLE_MARK] + encode_utf8(s) + crlf()
}

/// The decimal digits of `n`, as bytes.
pub open spec fn decimal_bytes(n: nat) -> Seq<u8>
    decreases n,
{
    if n < 10 {
        seq![(n + 48) as u8]
    } else {
        decimal_bytes(n / 10) + seq![((n % 10) + 48) as u8]
    }
}

/// A bulk-string reply carrying `s`, prefixed by its length in bytes.
pub open spec fn bulk_reply(s: Seq<char>) -> Seq<u8> {
    seq![BULK_MARK] + decimal_bytes(encode_utf8(s).len()) + crlf() + encode_utf8(s) + crlf()
}

/// The reply that says a key holds nothing.
pub open spec fn null_reply() -> Seq<u8> {
    seq![BULK_MARK] + encode_utf8("-1"@) + crlf()
}

/// The text of the error reply for `e`.
pub open spec fn error_message(e: RequestError) -> Seq<char> {
    match e {
        RequestError::Protocol => "ERR protocol error"@,
        RequestError::Command(_) => "ERR request is not a command"@,
        RequestError::Argument => "ERR wrong arguments for command"@,
        RequestError::UnknownCommand => "ERR unknown command"@,
    }
}

/// An error reply: a minus sign, the message and a line terminator.
pub open spec fn error_reply(e: RequestError) -> Seq<u8> {
    seq![45u8] + encode_utf8(error_message(e)) + crlf()
}

/// All the parts written one after another.
pub open spec fn concat_parts(parts: Seq<Seq<char>>) -> Seq<char>
    decreases parts.len(),
{
    if parts.len() == 0 {
        Seq::empty()
    } else {
        concat_parts(parts.drop_last()) + parts.last()
    }
}

/// The reply to a command, given the store as it was before.
pub open spec fn command_reply(c: SpecCommand, m: StoreMap, now: u128) -> Seq<u8> {
    match c {
        SpecCommand::Ping => simple_reply("PONG"@),
        SpecCommand::Echo(parts) => simple_reply(concat_parts(parts)),
        SpecCommand::SetValue { .. } => simple_reply("OK"@),
        SpecCommand::Get { key } => match live_value(m, key, now) {
            Some(v) => bulk_reply(v),
            None => null_reply(),
        },
    }
}

/// The store after a command.
pub open spec fn store_after(c: SpecCommand, m: StoreMap, now: u128) -> StoreMap {
    match c {
        SpecCommand::SetValue { key, value, ttl_ms } => after_set(m, key, value, ttl_ms, now),
        _ => m,
    }
}

/// `s` spells the upper-case keyword `w`, ignoring ASCII case.
fn keyword_matches(s: &str, w: &str) -> (r: bool)
    ensures
        r == keyword_eq(s@, w@),
{
    let n = s.unicode_len();
    if n != w.unicode_len() {
        return false;
    }
    let mut i: usize = 0;
    while i < n
        invariant
            n == s@.len() == w@.len(),
            i <= n,
            forall|j: int| 0 <= j < i ==> upper_matches(#[trigger] s@[j], w@[j]),
        decreases n - i,
    {
        let c = s.get_char(i);
        let d = w.get_char(i);
        if !(c == d || ('a' <= c && c <= 'z' && c as u32 - 32 == d as u32)) {
            return false;
        }
        i = i + 1;
    }
    true
}

/// The time to live in milliseconds that `s` writes, if it is a number that
/// fits in `u64`, with or without a leading `+`.
fn parse_millis(s: &str) -> (r: Option<u64>)
    ensures
        r is Some <==> is_millis(s@),
        r matches Some(v) ==> v == chars_value(millis_digits(s@)),
{
    let n = s.unicode_len();
    let start: usize = if n > 0 && s.get_char(0) == '+' {
        1
    } else {
        0
    };
    let ghost d = millis_digits(s@);
    assert(d =~= s@.subrange(start as int, n as int));
    if n == start {
        return None;
    }
    let mut acc: u64 = 0;
    let mut i: usize = start;
    let mut fits = true;
    assert(d.subrange(0, 0).len() == 0);
    while i < n
        invariant
            n == s@.len(),
            start <= i <= n,
            d == s@.subrange(start as int, n as int),
            d == millis_digits(s@),
            forall|j: int| 0 <= j < i - start ==> is_digit_char(#[trigger] d[j]),
            fits ==> acc == chars_value(d.subrange(0, i - start)),
            !fits ==> chars_value(d.subrange(0, i - start)) > u64::MAX,
        decreases n - i,
    {
        let c = s.get_char(i);
        assert(c == d[i - start]);
        if !('0' <= c && c <= '9') {
            assert(!is_digit_char(d[i - start]));
            return None;
        }
        let x = (c as u32 - 48) as u64;
        let ghost next = d.subrange(0, i - start + 1);
        assert(next.drop_last() =~= d.subrange(0, i - start));
        if fits {
            match acc.checked_mul(10) {
                None => {
                    fits = false;
                },
                Some(m) => match m.checked_add(x) {
                    None => {
                        fits = false;
                    },
                    Some(v) => {
                        acc = v;
                    },
                },
            }
        }
        i = i + 1;
    }
    assert(d.subrange(0, n - start) =~= d);
    if fits {
        Some(acc)
    } else {
        None
    }
}

/// The texts of all arguments, or `None` if one is not a string.
fn all_strings(args: &Vec<Value>) -> (r: Option<Vec<String>>)
    ensures
        r is Some <==> all_texts(values_view(args@)),
        r matches Some(parts) ==> parts@.len() == args@.len() && forall|i: int|
            0 <= i < args@.len() ==> #[trigger] parts@[i]@ == text_of(values_view(args@)[i])->0,
{
    let mut parts: Vec<String> = Vec::new();
    let mut i: usize = 0;
    while i < args.len()
        invariant
            i <= args@.len(),
            parts@.len() == i,
            forall|j: int| 0 <= j < i ==> text_of(#[trigger] values_view(args@)[j]) is Some,
            forall|j: int| 0 <= j < i ==> #[trigger] parts@[j]@ == text_of(values_view(args@)[j])->0,
        decreases args@.len() - i,
    {
        match extract_string(&args[i]) {
            None => {
                assert(text_of(values_view(args@)[i as int]) is None);
                return None;
            },
            Some(t) => {
                parts.push(t);
            },
        }
        i = i + 1;
    }
    Some(parts)
}

/// Reads a command name and its arguments as a command to run; the name is
/// matched ignoring ASCII case.
pub fn parse_command(name: &String, args: &Vec<Value>) -> (r: Result<Command, RequestError>)
    ensures
        match spec_parse_command(name@, values_view(args@)) {
            Ok(c) => r matches Ok(cmd) && cmd@ == c,
            Err(e) => r == Err::<Command, RequestError>(e),
        },
{
    let ghost av = values_view(args@);
    if keyword_matches(name.as_str(), "PING") {
        if args.len() == 0 {
            Ok(Command::Ping)
        } else {
            Err(RequestError::Argument)
        }
    } else if keyword_matches(name.as_str(), "ECHO") {
        if args.len() == 0 {
            return Err(RequestError::Argument);
        }
        match all_strings(args) {
            None => Err(RequestError::Argument),
            Some(parts) => {
                let r = Command::Echo(parts);
                assert(r@ == SpecCommand::Echo(Seq::new(av.len(), |i: int| text_of(av[i])->0))) by {
                    assert(Seq::new(parts@.len(), |i: int| parts@[i]@) =~= Seq::new(av.len(), |i: int| text_of(av[i])->0));
                }
                Ok(r)
            },
        }
    } else if keyword_matches(name.as_str(), "SET") {
        if args.len() < 2 {
            return Err(RequestError::Argument);
        }
        let parts = match all_strings(args) {
            Some(p) => p,
            None => {
                return Err(RequestError::Argument);
            },
        };
        let mut ttl_ms: Option<u64> = None;
        if parts.len() >= 4 && keyword_matches(parts[2].as_str(), "PX") {
            ttl_ms = parse_millis(parts[3].as_str());
        }
        let key = parts[0].clone();
        let value = parts[1].clone();
        assert(ttl_ms == spec_ttl(av));
        Ok(Command::SetValue { key, value, ttl_ms })
    } else if keyword_matches(name.as_str(), "GET") {
        if args.len() != 1 {
            return Err(RequestError::Argument);
        }
        match extract_string(&args[0]) {
            Some(key) => Ok(Command::Get { key }),
            None => Err(RequestError::Argument),
        }
    } else {
        Err(RequestError::UnknownCommand)
    }
}

proof fn lemma_encode_concat(a: Seq<char>, b: Seq<char>)
    ensures
        encode_utf8(a + b) == encode_utf8(a) + encode_utf8(b),
    decreases a.len(),
{
    if a.len() == 0 {
        assert(a + b =~= b);
        assert(encode_utf8(a) + encode_utf8(b) =~= encode_utf8(b));
    } else {
        assert((a + b).drop_first() =~= a.drop_first() + b);
        assert((a + b)[0] == a[0]);
        lemma_encode_concat(a.drop_first(), b);
        let h = encode_scalar_of(a[0]);
        assert(h + (encode_utf8(a.drop_first()) + encode_utf8(b)) =~= (h + encode_utf8(a.drop_first())) + encode_utf8(b));
    }
}

spec fn encode_scalar_of(c: char) -> Seq<u8> {
    vstd::utf8::encode_scalar(c as u32)
}

fn push_bytes(out: &mut Vec<u8>, data: &[u8])
    ensures
        final(out)@ == old(out)@ + data@,
{
    let ghost start = out@;
    let mut i: usize = 0;
    while i < data.len()
        invariant
            i <= data@.len(),
            out@ == start + data@.subrange(0, i as int),
        decreases data@.len() - i,
    {
        out.push(data[i]);
        i = i + 1;
        assert(out@ =~= start + data@.subrange(0, i as int));
    }
    assert(data@.subrange(0, data@.len() as int) =~= data@);
}

fn push_text(out: &mut Vec<u8>, s: &str)
    ensures
        final(out)@ == old(out)@ + encode_utf8(s@),
{
    push_bytes(out, s.as_bytes());
}

fn push_crlf(out: &mut Vec<u8>)
    ensures
        final(out)@ == old(out)@ + crlf(),
{
    let ghost start = out@;
    out.push(CR);
    out.push(LF);
    assert(out@ =~= start + crlf());
}

fn push_decimal(out: &mut Vec<u8>, n: usize)
    ensures
        final(out)@ == old(out)@ + decimal_bytes(n as nat),
    decreases n,
{
    let ghost start = out@;
    if n >= 10 {
        push_decimal(out, n / 10);
    }
    out.push((n % 10) as u8 + 48);
    assert(out@ =~= start + decimal_bytes(n as nat));
}

fn simple(s: &str) -> (r: Vec<u8>)
    ensures
        r@ == simple_reply(s@),
{
    let mut out: Vec<u8> = Vec::new();
    out.push(SIMPLE_MARK);
    push_text(&mut out, s);
    push_crlf(&mut out);
    assert(out@ =~= simple_reply(s@));
    out
}

fn bulk(s: &str) -> (r: Vec<u8>)
    ensures
        r@ == bulk_reply(s@),
{
    let mut out: Vec<u8> = Vec::new();
    out.push(BULK_MARK);
    let size = s.as_bytes().len();
    push_decimal(&mut out, size);
    push_crlf(&mut out);
    push_text(&mut out, s);
    push_crlf(&mut out);
    assert(out@ =~= bulk_reply(s@));
    out
}

fn null() -> (r: Vec<u8>)
    ensures
        r@ == null_reply(),
{
    let mut out: Vec<u8> = Vec::new();
    out.push(BULK_MARK);
    push_text(&mut out, "-1");
    push_crlf(&mut out);
    assert(out@ =~= null_reply());
    out
}

fn echo(parts: &Vec<String>) -> (r: Vec<u8>)
    ensures
        r@ == simple_reply(concat_parts(Seq::new(parts@.len(), |i: int| parts@[i]@))),
{
    let ghost all = Seq::new(parts@.len(), |i: int| parts@[i]@);
    let mut out: Vec<u8> = Vec::new();
    out.push(SIMPLE_MARK);
    let mut i: usize = 0;
    assert(all.subrange(0, 0) =~= Seq::<Seq<char>>::empty());
    while i < parts.len()
        invariant
            i <= parts@.len(),
            all == Seq::new(parts@.len(), |i: int| parts@[i]@),
            out@ == seq![SIMPLE_MARK] + encode_utf8(concat_parts(all.subrange(0, i as int))),
        decreases parts@.len() - i,
    {
        push_text(&mut out, parts[i].as_str());
        proof {
            let pre = all.subrange(0, i as int);
            let next = all.subrange(0, i + 1);
            assert(next.drop_last() =~= pre);
            lemma_encode_concat(concat_parts(pre), all[i as int]);
        }
        i = i + 1;
        assert(out@ =~= seq![SIMPLE_MARK] + encode_utf8(concat_parts(all.subrange(0, i as int))));
    }
    assert(all.subrange(0, parts@.len() as int) =~= all);
    push_crlf(&mut out);
    assert(out@ =~= simple_reply(concat_parts(all)));
    out
}

impl RequestError {
    /// The error reply that the client gets for this error.
    pub fn reply(&self) -> (r: Vec<u8>)
        ensures
            r@ == error_reply(*self),
    {
        let msg = match self {
            RequestError::Protocol => "ERR protocol error",
            RequestError::Command(_) => "ERR request is not a command",
            RequestError::Argument => "ERR wrong arguments for command",
            RequestError::UnknownCommand => "ERR unknown command",
        };
        let mut out: Vec<u8> = Vec::new();
        out.push(45u8);
        push_text(&mut out, msg);
        push_crlf(&mut out);
        assert(out@ =~= error_reply(*self));
        out
    }
}

/// Runs a command that leaves the store as it is; `None` for `SET`, which
/// needs write access.
pub fn execute_read(cmd: &Command, store: &Store, now: u128) -> (r: Option<Vec<u8>>)
    requires
        store.wf(),
    ensures
        r is None <==> cmd@ is SetValue,
        r matches Some(bytes) ==> bytes@ == command_reply(cmd@, store@, now),
{
    match cmd {
        Command::Ping => Some(simple("PONG")),
        Command::Echo(parts) => Some(echo(parts)),
        Command::SetValue { .. } => None,
        Command::Get { key } => match store.get(key, now) {
            Some(v) => Some(bulk(v.as_str())),
            None => Some(null()),
        },
    }
}

/// Every command but `SET` leaves the store as it was, so reads that no
/// write comes between all see the same entries.
pub proof fn lemma_reads_keep_store(c: SpecCommand, m: StoreMap, now: u128)
    requires
        !(c is SetValue),
    ensures
        store_after(c, m, now) == m,
{
}

/// `SET k v` with the default time to live, then `GET k` at the same time
/// (below the largest timestamp): the reply carries `v`.
pub proof fn lemma_set_then_get_reply(m: StoreMap, k: Seq<char>, v: Seq<char>, now: u128)
    requires
        now < u128::MAX,
    ensures
        command_reply(
            SpecCommand::Get { key: k },
            store_after(SpecCommand::SetValue { key: k, value: v, ttl_ms: None }, m, now),
            now,
        ) == bulk_reply(v),
{
    lemma_set_then_get(m, k, v, now);
}

/// `SET k v PX t` written at `written`, then `GET k` once `t` milliseconds
/// or more have passed: the reply is the null reply.
pub proof fn lemma_expired_get_reply(m: StoreMap, k: Seq<char>, v: Seq<char>, t: u64, written: u128, now: u128)
    requires
        written + t <= now,
    ensures
        command_reply(
            SpecCommand::Get { key: k },
            store_after(SpecCommand::SetValue { key: k, value: v, ttl_ms: Some(t) }, m, written),
            now,
        ) == null_reply(),
{
}

/// Runs a command against the store at time `now` and gives its reply.
pub fn execute(cmd: Command, store: &mut Store, now: u128) -> (r: Vec<u8>)
    requires
        old(store).wf(),
    ensures
        final(store).wf(),
        final(store)@ == store_after(cmd@, old(store)@, now),
        r@ == command_reply(cmd@, old(store)@, now),
{
    match cmd {
        Command::SetValue { key, value, ttl_ms } => {
            store.set(key, value, ttl_ms, now);
            simple("OK")
        },
        _ => match execute_read(&cmd, store, now) {
            Some(reply) => reply,
            None => simple("OK"),
        },
    }
}

/// Runs the command that a name and its arguments ask for; the reply, or
/// the error that the request gets, with the store left as it was.
pub fn handle_command(command: (String, Vec<Value>), store: &mut Store, now: u128) -> (r: Result<Vec<u8>, RequestError>)
    requires
        old(store).wf(),
    ensures
        final(store).wf(),
        match spec_parse_command(command.0@, values_view(command.1@)) {
            Ok(c) => r matches Ok(bytes) && bytes@ == command_reply(c, old(store)@, now)
                && final(store)@ == store_after(c, old(store)@, now),
            Err(e) => r == Err::<Vec<u8>, RequestError>(e) && final(store)@ == old(store)@,
        },
{
    match parse_command(&command.0, &command.1) {
        Ok(cmd) => Ok(execute(cmd, store, now)),
        Err(e) => Err(e),
    }
}

/// What to do with the bytes that a connection has received so far.
#[derive(PartialEq, Debug)]
pub enum Request {
    /// The buffer ends inside the first frame: read more and try again.
    NeedMore,
    /// The first frame is a command, `consumed` bytes long.
    Ready { command: Command, consumed: usize },
    /// The first frame is refused: send the error's reply and close the connection.
    Reject { error: RequestError },
}

/// Reads the first frame of `buf` as a request.
pub fn next_request(buf: &[u8]) -> (r: Request)
    ensures
        match spec_decode(buf@, 0) {
            Err(DecodeError::Incomplete) => r is NeedMore,
            Err(DecodeError::Protocol) => r matches Request::Reject { error } && error == RequestError::Protocol,
            Ok((v, e)) => match spec_command(v) {
                Err(ce) => r matches Request::Reject { error } && error == RequestError::Command(ce),
                Ok((name, args)) => match spec_parse_command(name, args) {
                    Ok(c) => r matches Request::Ready { command, consumed } && command@ == c && consumed == e,
                    Err(x) => r matches Request::Reject { error } && error == x,
                },
            },
        },
{
    match decode(buf, 0) {
        Err(DecodeError::Incomplete) => Request::NeedMore,
        Err(DecodeError::Protocol) => Request::Reject { error: RequestError::Protocol },
        Ok((v, consumed)) => match get_command(v) {
            Err(ce) => Request::Reject { error: RequestError::Command(ce) },
            Ok((name, args)) => match parse_command(&name, &args) {
                Ok(command) => Request::Ready { command, consumed },
                Err(error) => Request::Reject { error },
            },
        },
    }
}

} // verus!

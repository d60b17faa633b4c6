//! The wire codec: request frames of bulk strings in, typed responses out.

use crate::text::{decode_text, same_chars, starts_with_chars, string_of, upper_chars, upper_of, uppercase};
use crate::text::append_text;
use vstd::prelude::*;
use vstd::string::StringSliceAdditionalSpecFns;
use vstd::utf8::{decode_utf8, encode_utf8, valid_utf8};

verus! {

/// A decoded request.
#[derive(Debug)]
pub enum Command {
    PING(Option<String>),
    ECHO(String),
    SET(String, String, Option<Vec<(String, String)>>),
    GET(String),
    CONFIGGET(String),
    INFO(Option<String>),
    KEYS(String),
    UNKNOWN(String),
}

/// What a request holds.
pub enum CommandView {
    PING(Option<Seq<char>>),
    ECHO(Seq<char>),
    SET(Seq<char>, Seq<char>, Option<Seq<(Seq<char>, Seq<char>)>>),
    GET(Seq<char>),
    CONFIGGET(Seq<char>),
    INFO(Option<Seq<char>>),
    KEYS(Seq<char>),
    UNKNOWN(Seq<char>),
}

/// The text that an optional `String` holds.
pub open spec fn opt_text(o: Option<String>) -> Option<Seq<char>> {
    match o {
        Some(s) => Some(s@),
        None => None,
    }
}

/// Pairs of strings as pairs of character sequences.
pub open spec fn pairs_text(v: Seq<(String, String)>) -> Seq<(Seq<char>, Seq<char>)> {
    v.map_values(|p: (String, String)| (p.0@, p.1@))
}

impl View for Command {
    type V = CommandView;

    open spec fn view(&self) -> CommandView {
        match self {
            Command::PING(m) => CommandView::PING(opt_text(*m)),
            Command::ECHO(m) => CommandView::ECHO(m@),
            Command::SET(k, v, o) => CommandView::SET(
                k@,
                v@,
                match o {
                    Some(opts) => Some(pairs_text(opts@)),
                    None => None,
                },
            ),
            Command::GET(k) => CommandView::GET(k@),
            Command::CONFIGGET(p) => CommandView::CONFIGGET(p@),
            Command::INFO(s) => CommandView::INFO(opt_text(*s)),
            Command::KEYS(p) => CommandView::KEYS(p@),
            Command::UNKNOWN(n) => CommandView::UNKNOWN(n@),
        }
    }
}

/// A response value.
pub enum RedisValue {
    SimpleString(String),
    BulkString(Option<String>),
    Array(Vec<String>),
    Error(String),
}

/// What a response value holds.
pub enum ValueView {
    Simple(Seq<char>),
    Bulk(Option<Seq<char>>),
    Array(Seq<Seq<char>>),
    Error(Seq<char>),
}

/// Strings as character sequences.
pub open spec fn texts(v: Seq<String>) -> Seq<Seq<char>> {
    v.map_values(|s: String| s@)
}

impl View for RedisValue {
    type V = ValueView;

    open spec fn view(&self) -> ValueView {
        match self {
            RedisValue::SimpleString(s) => ValueView::Simple(s@),
            RedisValue::BulkString(b) => ValueView::Bulk(opt_text(*b)),
            RedisValue::Array(items) => ValueView::Array(texts(items@)),
            RedisValue::Error(s) => ValueView::Error(s@),
        }
    }
}

/// The line terminator.
pub open spec fn crlf() -> Seq<char> {
    seq!['\r', '\n']
}

/// The decimal digit character for `d` (below 10).
pub open spec fn digit_char(d: nat) -> char {
    ((d + 48) as u8) as char
}

/// The decimal digits of `n`, most significant first, without leading zeros.
pub open spec fn decimal(n: nat) -> Seq<char>
    decreases n,
{
    if n < 10 {
        seq![digit_char(n)]
    } else {
        decimal(n / 10).push(digit_char(n % 10))
    }
}

/// The number of bytes in the UTF-8 form of `t`, as a machine size: text
/// held in memory never has more bytes than a `usize` counts.
pub open spec fn byte_len(t: Seq<char>) -> nat {
    (encode_utf8(t).len() as usize) as nat
}

/// The wire form of a present bulk string: its length in bytes, then its text.
pub open spec fn bulk(t: Seq<char>) -> Seq<char> {
    seq!['$'] + decimal(byte_len(t)) + crlf() + t + crlf()
}

/// The wire forms of `items` as bulk strings, one after another.
pub open spec fn bulks(items: Seq<Seq<char>>) -> Seq<char>
    decreases items.len(),
{
    if items.len() == 0 {
        Seq::empty()
    } else {
        bulks(items.drop_last()) + bulk(items.last())
    }
}

/// The wire form of a response value.
pub open spec fn serialized(v: ValueView) -> Seq<char> {
    match v {
        ValueView::Simple(t) => seq!['+'] + t + crlf(),
        ValueView::Bulk(Some(t)) => bulk(t),
        ValueView::Bulk(None) => seq!['$', '-', '1', '\r', '\n'],
        ValueView::Error(t) => seq!['-'] + t + crlf(),
        ValueView::Array(items) => seq!['*'] + decimal(items.len()) + crlf() + bulks(items),
    }
}

/// Appends the decimal digits of `n` to `out`.
pub fn push_decimal(out: &mut String, n: u64)
    ensures
        final(out)@ == old(out)@ + decimal(n as nat),
    decreases n,
{
    if n >= 10 {
        push_decimal(out, n / 10);
    }
    let d = (n % 10) as u8;
    out.push((d + 48) as char);
    assert(decimal(n as nat) == if n < 10 {
        seq![digit_char(n as nat)]
    } else {
        decimal((n / 10) as nat).push(digit_char((n % 10) as nat))
    });
    assert(final(out)@ =~= old(out)@ + decimal(n as nat));
}

/// Appends the line terminator to `out`.
fn push_crlf(out: &mut String)
    ensures
        final(out)@ == old(out)@ + crlf(),
{
    out.push('\r');
    out.push('\n');
    assert(final(out)@ =~= old(out)@ + crlf());
}

/// Appends the wire form of the bulk string `t` to `out`.
fn push_bulk(out: &mut String, t: &String)
    ensures
        final(out)@ == old(out)@ + bulk(t@),
{
    let ghost start = out@;
    out.push('$');
    push_decimal(out, t.as_str().len() as u64);
    push_crlf(out);
    append_text(out, t);
    push_crlf(out);
    assert(out@ =~= start + bulk(t@));
}

/// The wire form of `value`: `+text`, `$length` and text, `$-1`, `-text`, or
/// `*count` followed by each item as a bulk string; each line ends with CRLF.
pub fn serialize_response(value: RedisValue) -> (r: String)
    ensures
        r@ == serialized(value@),
{
    let mut out = String::new();
    match value {
        RedisValue::SimpleString(s) => {
            out.push('+');
            append_text(&mut out, &s);
            push_crlf(&mut out);
        },
        RedisValue::BulkString(Some(s)) => {
            push_bulk(&mut out, &s);
        },
        RedisValue::BulkString(None) => {
            out.push('$');
            out.push('-');
            out.push('1');
            push_crlf(&mut out);
        },
        RedisValue::Error(s) => {
            out.push('-');
            append_text(&mut out, &s);
            push_crlf(&mut out);
        },
        RedisValue::Array(items) => {
            out.push('*');
            push_decimal(&mut out, items.len() as u64);
            push_crlf(&mut out);
            let ghost head = out@;
            let mut i: usize = 0;
            while i < items.len()
                invariant
                    i <= items@.len(),
                    out@ == head + bulks(texts(items@).take(i as int)),
                decreases items@.len() - i,
            {
                push_bulk(&mut out, &items[i]);
                i = i + 1;
                assert(texts(items@).take(i as int).drop_last() =~= texts(items@).take(i - 1));
            }
            assert(texts(items@).take(items@.len() as int) =~= texts(items@));
        },
    }
    assert(out@ =~= serialized(value@));
    out
}

/// Splits `s` at each line terminator, scanning from the left, with `cur` the
/// characters already gathered for the current segment.
pub open spec fn split_from(s: Seq<char>, cur: Seq<char>) -> Seq<Seq<char>>
    decreases s.len(),
{
    if s.len() == 0 {
        seq![cur]
    } else if s.len() >= 2 && s[0] == '\r' && s[1] == '\n' {
        seq![cur] + split_from(s.skip(2), Seq::empty())
    } else {
        split_from(s.skip(1), cur.push(s[0]))
    }
}

/// The segments of `s` between line terminators.
pub open spec fn split_crlf(s: Seq<char>) -> Seq<Seq<char>> {
    split_from(s, Seq::empty())
}

/// The segments of `s` that are not empty, in order.
pub open spec fn nonempty_only(s: Seq<Seq<char>>) -> Seq<Seq<char>>
    decreases s.len(),
{
    if s.len() == 0 {
        s
    } else if s.last().len() > 0 {
        nonempty_only(s.drop_last()).push(s.last())
    } else {
        nonempty_only(s.drop_last())
    }
}

/// The segments of `s` that are no bulk-string length marker (`$...`).
pub open spec fn without_markers(s: Seq<Seq<char>>) -> Seq<Seq<char>>
    decreases s.len(),
{
    if s.len() == 0 {
        s
    } else if s.last().len() > 0 && s.last()[0] == '$' {
        without_markers(s.drop_last())
    } else {
        without_markers(s.drop_last()).push(s.last())
    }
}

/// Option tokens taken two at a time, empty ones left out: the first of each
/// pair upper-cased, an unpaired last token dropped.
pub open spec fn grouped(options: Seq<Seq<char>>) -> Seq<(Seq<char>, Seq<char>)> {
    let f = nonempty_only(options);
    Seq::new(f.len() / 2, |k: int| (upper_of(f[2 * k]), f[2 * k + 1]))
}

/// The options of a `SET` request with segments `parts`.
pub open spec fn set_options(parts: Seq<Seq<char>>) -> Seq<(Seq<char>, Seq<char>)> {
    grouped(without_markers(parts.skip(8)))
}

/// The command name of a request with segments `parts`: segment 2 upper-cased,
/// and for a name that starts with CONFIG, a space and segment 4 upper-cased
/// after it. `None` where that segment is missing.
pub open spec fn command_name(parts: Seq<Seq<char>>) -> Option<Seq<char>> {
    let base = upper_of(parts[2]);
    if base.len() >= 6 && base.take(6) == seq!['C', 'O', 'N', 'F', 'I', 'G'] {
        if parts.len() < 5 {
            None
        } else {
            Some(base + seq![' '] + upper_of(parts[4]))
        }
    } else {
        Some(base)
    }
}

/// The request with segments `parts` and command name `name`; `None` where a
/// segment that the command needs is missing.
pub open spec fn command_of(parts: Seq<Seq<char>>, name: Seq<char>) -> Option<CommandView> {
    if name == seq!['E', 'C', 'H', 'O'] {
        if parts.len() < 6 {
            None
        } else {
            Some(CommandView::ECHO(parts[4]))
        }
    } else if name == seq!['P', 'I', 'N', 'G'] {
        Some(CommandView::PING(if parts.len() >= 6 { Some(parts[4]) } else { None }))
    } else if name == seq!['S', 'E', 'T'] {
        if parts.len() < 7 {
            None
        } else {
            Some(
                CommandView::SET(
                    parts[4],
                    parts[6],
                    if parts.len() <= 8 { None } else { Some(set_options(parts)) },
                ),
            )
        }
    } else if name == seq!['G', 'E', 'T'] {
        if parts.len() < 6 {
            None
        } else {
            Some(CommandView::GET(parts[4]))
        }
    } else if name == seq!['C', 'O', 'N', 'F', 'I', 'G', ' ', 'G', 'E', 'T'] {
        if parts.len() < 7 {
            None
        } else {
            Some(CommandView::CONFIGGET(parts[6]))
        }
    } else {
        Some(CommandView::UNKNOWN(name))
    }
}

/// The request in the text `s`; `None` where it is malformed: fewer than four
/// segments, a first segment not starting with `*`, or a missing segment.
pub open spec fn parse_text(s: Seq<char>) -> Option<CommandView> {
    let parts = split_crlf(s);
    if parts.len() < 4 || parts[0].len() == 0 || parts[0][0] != '*' {
        None
    } else {
        match command_name(parts) {
            None => None,
            Some(name) => command_of(parts, name),
        }
    }
}

/// The request in the bytes `frame`; `None` where they are no UTF-8 text or
/// the text is malformed.
pub open spec fn parse_spec(frame: Seq<u8>) -> Option<CommandView> {
    if valid_utf8(frame) {
        parse_text(decode_utf8(frame))
    } else {
        None
    }
}

/// Character vectors as sequences.
pub open spec fn segments_view(v: Seq<Vec<char>>) -> Seq<Seq<char>> {
    v.map_values(|x: Vec<char>| x@)
}

/// Splits `c` at each line terminator.
pub fn split_segments(c: &Vec<char>) -> (r: Vec<Vec<char>>)
    ensures
        segments_view(r@) == split_crlf(c@),
{
    let n = c.len();
    let mut parts: Vec<Vec<char>> = Vec::new();
    let mut cur: Vec<char> = Vec::new();
    let mut i: usize = 0;
    assert(c@.skip(0) =~= c@);
    while i < n
        invariant
            i <= n == c@.len(),
            segments_view(parts@) + split_from(c@.skip(i as int), cur@) == split_crlf(c@),
        decreases n - i,
    {
        let ghost rest = c@.skip(i as int);
        if c[i] == '\r' && i + 1 < n && c[i + 1] == '\n' {
            assert(rest.skip(2) =~= c@.skip(i + 2));
            let ghost before = segments_view(parts@);
            let ghost done = cur@;
            parts.push(cur);
            cur = Vec::new();
            assert(segments_view(parts@) =~= before.push(done));
            assert(before + split_from(rest, done) =~= segments_view(parts@) + split_from(
                c@.skip(i + 2),
                cur@,
            ));
            i = i + 2;
        } else {
            assert(rest.skip(1) =~= c@.skip(i + 1));
            cur.push(c[i]);
            i = i + 1;
        }
    }
    let ghost before = segments_view(parts@);
    let ghost done = cur@;
    parts.push(cur);
    assert(segments_view(parts@) =~= before.push(done));
    assert(c@.skip(n as int) =~= Seq::<char>::empty());
    assert(before + seq![done] =~= segments_view(parts@));
    parts
}

/// Groups option tokens two at a time, leaving out empty ones: the first of
/// each pair upper-cased, an unpaired last token dropped.
pub fn group_redis_optional_arguments(options: Vec<String>) -> (r: Vec<(String, String)>)
    ensures
        pairs_text(r@) == grouped(texts(options@)),
{
    let mut kept: Vec<String> = Vec::new();
    let mut i: usize = 0;
    while i < options.len()
        invariant
            i <= options@.len(),
            texts(kept@) == nonempty_only(texts(options@).take(i as int)),
        decreases options@.len() - i,
    {
        assert(texts(options@).take(i + 1).drop_last() =~= texts(options@).take(i as int));
        if !options[i].as_str().is_empty() {
            let ghost before = texts(kept@);
            kept.push(options[i].clone());
            assert(texts(kept@) =~= before.push(options@[i as int]@));
        }
        i = i + 1;
    }
    assert(texts(options@).take(options@.len() as int) =~= texts(options@));
    let ghost f = texts(kept@);
    let mut out: Vec<(String, String)> = Vec::new();
    let mut k: usize = 0;
    while k < kept.len() / 2
        invariant
            k <= kept@.len() / 2,
            f == texts(kept@),
            pairs_text(out@) == Seq::new(k as nat, |j: int| (upper_of(f[2 * j]), f[2 * j + 1])),
        decreases kept@.len() / 2 - k,
    {
        let name = uppercase(kept[2 * k].as_str());
        let value = kept[2 * k + 1].clone();
        let ghost before = pairs_text(out@);
        assert(f[2 * k as int] == kept@[2 * k as int]@);
        assert(f[2 * k + 1] == kept@[2 * k + 1]@);
        let ghost item = (name@, value@);
        out.push((name, value));
        assert(pairs_text(out@) =~= before.push(item));
        k = k + 1;
        assert(pairs_text(out@) =~= Seq::new(k as nat, |j: int| (upper_of(f[2 * j]), f[2 * j + 1])));
    }
    out
}

/// The option tokens of a `SET` request with segments `parts`: those from
/// index 8 on that are no length marker.
fn option_tokens(parts: &Vec<Vec<char>>) -> (r: Vec<String>)
    requires
        parts@.len() >= 8,
    ensures
        texts(r@) == without_markers(segments_view(parts@).skip(8)),
{
    let ghost all = segments_view(parts@).skip(8);
    let mut out: Vec<String> = Vec::new();
    let mut i: usize = 8;
    assert(all.take(0) =~= Seq::<Seq<char>>::empty());
    while i < parts.len()
        invariant
            8 <= i <= parts@.len(),
            all == segments_view(parts@).skip(8),
            texts(out@) == without_markers(all.take(i - 8)),
        decreases parts@.len() - i,
    {
        assert(all.take(i - 7).drop_last() =~= all.take(i - 8));
        assert(all.take(i - 7).last() == parts@[i as int]@);
        let seg = &parts[i];
        if !(seg.len() > 0 && seg[0] == '$') {
            let ghost before = texts(out@);
            out.push(string_of(seg));
            assert(texts(out@) =~= before.push(seg@));
        }
        i = i + 1;
    }
    assert(all.take(parts@.len() - 8) =~= all);
    out
}

/// The request with segments `parts` and command name `name` (already upper
/// case): an error where a segment that the command needs is missing; a name
/// that no command has gives `UNKNOWN`.
pub fn command_from_parts(parts: &Vec<Vec<char>>, name: &Vec<char>) -> (r: Result<Command, String>)
    requires
        parts@.len() >= 4,
    ensures
        match command_of(segments_view(parts@), name@) {
            Some(c) => r matches Ok(x) && x@ == c,
            None => r is Err,
        },
{
    let ghost p = segments_view(parts@);
    let n = parts.len();
    if same_chars(name, &vec!['E', 'C', 'H', 'O']) {
        if n < 6 {
            return Err("Invalid ECHO command format".to_owned());
        }
        Ok(Command::ECHO(string_of(&parts[4])))
    } else if same_chars(name, &vec!['P', 'I', 'N', 'G']) {
        if n >= 6 {
            Ok(Command::PING(Some(string_of(&parts[4]))))
        } else {
            Ok(Command::PING(None))
        }
    } else if same_chars(name, &vec!['S', 'E', 'T']) {
        if n < 7 {
            return Err("Invalid SET command format".to_owned());
        }
        let key = string_of(&parts[4]);
        let value = string_of(&parts[6]);
        if n <= 8 {
            Ok(Command::SET(key, value, None))
        } else {
            let tokens = option_tokens(parts);
            Ok(Command::SET(key, value, Some(group_redis_optional_arguments(tokens))))
        }
    } else if same_chars(name, &vec!['G', 'E', 'T']) {
        if n < 6 {
            return Err("Invalid GET command format".to_owned());
        }
        Ok(Command::GET(string_of(&parts[4])))
    } else if same_chars(name, &vec!['C', 'O', 'N', 'F', 'I', 'G', ' ', 'G', 'E', 'T']) {
        if n < 7 {
            return Err("Invalid CONFIG GET command format".to_owned());
        }
        Ok(Command::CONFIGGET(string_of(&parts[6])))
    } else {
        Ok(Command::UNKNOWN(string_of(name)))
    }
}

/// Decodes the first request of `command_input`: a frame of the form
/// `*count`, then `$length` and the data for each argument, lines ending with
/// CRLF. Fails on bytes that are no UTF-8 text and on malformed frames.
pub fn parse_command(command_input: &[u8]) -> (r: Result<Command, String>)
    ensures
        match parse_spec(command_input@) {
            Some(c) => r matches Ok(x) && x@ == c,
            None => r is Err,
        },
{
    let text = match decode_text(command_input) {
        Some(t) => t,
        None => return Err("Invalid UTF-8 sequence".to_owned()),
    };
    let parts = split_segments(&text);
    let ghost p = segments_view(parts@);
    assert(p.len() == parts@.len());
    if parts.len() < 4 || parts[0].len() == 0 || parts[0][0] != '*' {
        return Err("Invalid RESP format".to_owned());
    }
    assert(p[0] == parts@[0]@ && p[2] == parts@[2]@ && p[0][0] == parts@[0]@[0]);
    let mut name = upper_chars(&parts[2]);
    if starts_with_chars(&name, &vec!['C', 'O', 'N', 'F', 'I', 'G']) {
        if parts.len() < 5 {
            return Err("Invalid CONFIG command format".to_owned());
        }
        assert(p[4] == parts@[4]@);
        let mut sub = upper_chars(&parts[4]);
        let ghost base = name@;
        let ghost tail = sub@;
        name.push(' ');
        name.append(&mut sub);
        assert(name@ =~= base + seq![' '] + tail);
    }
    assert(command_name(p) == Some(name@));
    command_from_parts(&parts, &name)
}

/// Whether `s` holds no line terminator.
pub open spec fn no_crlf(s: Seq<char>) -> bool {
    forall|i: int| 0 <= i < s.len() - 1 ==> !(#[trigger] s[i] == '\r' && s[i + 1] == '\n')
}

/// The segments of a request frame for `items`, after its count line: a
/// length line and the item, for each item.
pub open spec fn item_segments(items: Seq<Seq<char>>) -> Seq<Seq<char>>
    decreases items.len(),
{
    if items.len() == 0 {
        Seq::empty()
    } else {
        seq![seq!['$'] + decimal(byte_len(items[0])), items[0]] + item_segments(items.skip(1))
    }
}

/// The segments of the request frame for `items`: the count line, a length
/// line and the item for each item, and the empty rest after the last CRLF.
pub open spec fn request_segments(items: Seq<Seq<char>>) -> Seq<Seq<char>> {
    seq![seq!['*'] + decimal(items.len())] + item_segments(items) + seq![Seq::empty()]
}

proof fn lemma_split_line(a: Seq<char>, b: Seq<char>, cur: Seq<char>)
    requires
        no_crlf(a),
    ensures
        split_from(a + crlf() + b, cur) == seq![cur + a] + split_from(b, Seq::empty()),
    decreases a.len(),
{
    let s = a + crlf() + b;
    if a.len() == 0 {
        assert(s =~= crlf() + b);
        assert(s.skip(2) =~= b);
        assert(cur + a =~= cur);
    } else {
        assert(s[0] == a[0]);
        if a.len() >= 2 {
            assert(s[1] == a[1]);
            assert(!(a[0] == '\r' && a[1] == '\n'));
        } else {
            assert(s[1] == '\r');
        }
        assert(s.skip(1) =~= a.skip(1) + crlf() + b);
        assert forall|i: int| 0 <= i < a.skip(1).len() - 1 implies !(#[trigger] a.skip(1)[i] == '\r'
            && a.skip(1)[i + 1] == '\n') by {
            assert(a.skip(1)[i] == a[i + 1] && a.skip(1)[i + 1] == a[i + 2]);
        }
        lemma_split_line(a.skip(1), b, cur.push(a[0]));
        assert(cur.push(a[0]) + a.skip(1) =~= cur + a);
    }
}

proof fn lemma_decimal_digits(n: nat)
    ensures
        forall|i: int| 0 <= i < decimal(n).len() ==> #[trigger] decimal(n)[i] != '\r',
    decreases n,
{
    if n >= 10 {
        lemma_decimal_digits(n / 10);
        let d = decimal(n / 10);
        assert forall|i: int| 0 <= i < decimal(n).len() implies #[trigger] decimal(n)[i] != '\r' by {
            if i < d.len() {
                assert(decimal(n)[i] == d[i]);
            } else {
                assert(decimal(n)[i] == digit_char(n % 10));
            }
        }
    }
}

proof fn lemma_line_head_clean(c: char, n: nat)
    requires
        c != '\r',
    ensures
        no_crlf(seq![c] + decimal(n)),
{
    lemma_decimal_digits(n);
    let a = seq![c] + decimal(n);
    assert forall|i: int| 0 <= i < a.len() - 1 implies !(#[trigger] a[i] == '\r' && a[i + 1] == '\n') by {
        if i == 0 {
            assert(a[0] == c);
        } else {
            assert(a[i] == decimal(n)[i - 1]);
        }
    }
}

proof fn lemma_bulks_front(items: Seq<Seq<char>>)
    requires
        items.len() > 0,
    ensures
        bulks(items) == bulk(items[0]) + bulks(items.skip(1)),
    decreases items.len(),
{
    if items.len() == 1 {
        assert(items.drop_last() =~= Seq::<Seq<char>>::empty());
        assert(items.skip(1) =~= Seq::<Seq<char>>::empty());
        assert(bulks(items) =~= bulk(items[0]) + bulks(items.skip(1)));
    } else {
        let dl = items.drop_last();
        lemma_bulks_front(dl);
        assert(dl.skip(1) =~= items.skip(1).drop_last());
        assert(items.skip(1).last() == items.last());
        assert(dl[0] == items[0]);
        assert(bulks(items) =~= bulk(items[0]) + bulks(items.skip(1)));
    }
}

proof fn lemma_split_bulks(items: Seq<Seq<char>>)
    requires
        forall|i: int| 0 <= i < items.len() ==> no_crlf(#[trigger] items[i]),
    ensures
        split_from(bulks(items), Seq::empty()) == item_segments(items) + seq![Seq::<char>::empty()],
    decreases items.len(),
{
    if items.len() == 0 {
        assert(bulks(items) =~= Seq::<char>::empty());
        assert(item_segments(items) + seq![Seq::<char>::empty()] =~= seq![Seq::<char>::empty()]);
    } else {
        let t = items[0];
        let rest = bulks(items.skip(1));
        lemma_bulks_front(items);
        let head = seq!['$'] + decimal(byte_len(t));
        lemma_line_head_clean('$', byte_len(t));
        assert(bulks(items) =~= head + crlf() + (t + crlf() + rest));
        lemma_split_line(head, t + crlf() + rest, Seq::empty());
        lemma_split_line(t, rest, Seq::empty());
        assert forall|i: int| 0 <= i < items.skip(1).len() implies no_crlf(#[trigger] items.skip(1)[i]) by {
            assert(items.skip(1)[i] == items[i + 1]);
        }
        lemma_split_bulks(items.skip(1));
        assert(Seq::<char>::empty() + head =~= head);
        assert(Seq::<char>::empty() + t =~= t);
        assert(split_from(bulks(items), Seq::empty()) =~= item_segments(items) + seq![Seq::<char>::empty()]);
    }
}

proof fn lemma_item_segments(items: Seq<Seq<char>>)
    ensures
        item_segments(items).len() == 2 * items.len(),
        forall|k: int| 0 <= k < items.len() ==> #[trigger] item_segments(items)[2 * k + 1] == items[k],
    decreases items.len(),
{
    if items.len() > 0 {
        lemma_item_segments(items.skip(1));
        assert forall|k: int| 0 <= k < items.len() implies #[trigger] item_segments(items)[2 * k + 1] == items[k] by {
            if k > 0 {
                assert(item_segments(items)[2 * k + 1] == item_segments(items.skip(1))[2 * (k - 1) + 1]);
                assert(items.skip(1)[k - 1] == items[k]);
            }
        }
    }
}

/// Round trip of a request: an array of items without line terminators,
/// serialized, splits into exactly the segments of a request frame for those
/// items; and as a request it decodes to the command the items name, for the
/// commands with a fixed shape.
pub proof fn law_request_round_trip(items: Seq<Seq<char>>)
    requires
        forall|i: int| 0 <= i < items.len() ==> no_crlf(#[trigger] items[i]),
    ensures
        split_crlf(serialized(ValueView::Array(items))) == request_segments(items),
        items.len() == 2 && upper_of(items[0]) == seq!['E', 'C', 'H', 'O'] ==> parse_text(
            serialized(ValueView::Array(items)),
        ) == Some(CommandView::ECHO(items[1])),
        items.len() == 2 && upper_of(items[0]) == seq!['G', 'E', 'T'] ==> parse_text(
            serialized(ValueView::Array(items)),
        ) == Some(CommandView::GET(items[1])),
        items.len() == 3 && upper_of(items[0]) == seq!['S', 'E', 'T'] ==> parse_text(
            serialized(ValueView::Array(items)),
        ) == Some(CommandView::SET(items[1], items[2], None)),
        items.len() == 1 && upper_of(items[0]) == seq!['P', 'I', 'N', 'G'] ==> parse_text(
            serialized(ValueView::Array(items)),
        ) == Some(CommandView::PING(None)),
        items.len() == 2 && upper_of(items[0]) == seq!['P', 'I', 'N', 'G'] ==> parse_text(
            serialized(ValueView::Array(items)),
        ) == Some(CommandView::PING(Some(items[1]))),
{
    let head = seq!['*'] + decimal(items.len());
    lemma_line_head_clean('*', items.len());
    let frame = serialized(ValueView::Array(items));
    assert(frame =~= head + crlf() + bulks(items));
    lemma_split_line(head, bulks(items), Seq::empty());
    lemma_split_bulks(items);
    assert(Seq::<char>::empty() + head =~= head);
    let parts = split_crlf(frame);
    assert(parts =~= request_segments(items));
    lemma_item_segments(items);
    assert(parts.len() == 2 * items.len() + 2);
    if items.len() >= 1 {
        assert(parts[2] == item_segments(items)[2 * (0 as int) + 1]);
    }
    if items.len() >= 2 {
        assert(parts[4] == item_segments(items)[2 * (1 as int) + 1]);
    }
    if items.len() >= 3 {
        assert(parts[6] == item_segments(items)[2 * (2 as int) + 1]);
    }
    assert(parts[0] == head);
    assert(head[0] == '*');
}

/// Whether `s` ends with a line terminator.
pub open spec fn ends_with_crlf(s: Seq<char>) -> bool {
    s.len() >= 2 && s.subrange(s.len() - 2, s.len() as int) == crlf()
}

/// Every serialized reply ends with a line terminator.
pub proof fn law_reply_ends_with_crlf(v: ValueView)
    ensures
        ends_with_crlf(serialized(v)),
{
    let out = serialized(v);
    match v {
        ValueView::Simple(t) => {
            assert(out.subrange(out.len() - 2, out.len() as int) =~= crlf());
        },
        ValueView::Bulk(Some(t)) => {
            assert(out.subrange(out.len() - 2, out.len() as int) =~= crlf());
        },
        ValueView::Bulk(None) => {
            assert(out.subrange(out.len() - 2, out.len() as int) =~= crlf());
        },
        ValueView::Error(t) => {
            assert(out.subrange(out.len() - 2, out.len() as int) =~= crlf());
        },
        ValueView::Array(items) => {
            if items.len() == 0 {
                assert(bulks(items) =~= Seq::<char>::empty());
                assert(out.subrange(out.len() - 2, out.len() as int) =~= crlf());
            } else {
                let last = bulk(items.last());
                assert(out =~= seq!['*'] + decimal(items.len()) + crlf() + bulks(items.drop_last())
                    + last);
                assert(out.subrange(out.len() - 2, out.len() as int) =~= last.subrange(
                    last.len() - 2,
                    last.len() as int,
                ));
                assert(last.subrange(last.len() - 2, last.len() as int) =~= crlf());
            }
        },
    }
}

} // verus!

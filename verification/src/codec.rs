//! The wire codec: a total, self-describing text encoding for
//! `ProtocolMessage`. `encode` never fails; `decode` is total over any input
//! frame, mapping anything that matches no known shape to `Unrecognized`.
use vstd::prelude::*;
use vstd::string::*;
use crate::protocol::MessageView;
use crate::protocol::ProtocolMessage;
use crate::protocol::UserInfo;
use crate::protocol::UserView;

verus! {

// ---------------------------------------------------------------------------
// The fixed pieces of the encoding.
// ---------------------------------------------------------------------------
pub open spec fn chat_prefix() -> Seq<char> {
    "{\"type\":\"chat\",\"content\":{\"text\":\""@
}

pub open spec fn join_prefix() -> Seq<char> {
    "{\"type\":\"join\",\"content\":{\"name\":\""@
}

pub open spec fn list_prefix() -> Seq<char> {
    "{\"type\":\"userListUpdate\",\"content\":["@
}

pub open spec fn from_sep() -> Seq<char> {
    ",\"from\":\""@
}

pub open spec fn room_sep() -> Seq<char> {
    ",\"room\":\""@
}

pub open spec fn quote_s() -> Seq<char> {
    seq!['"']
}

pub open spec fn comma_s() -> Seq<char> {
    seq![',']
}

pub open spec fn end_obj() -> Seq<char> {
    seq!['}', '}']
}

pub open spec fn end_list() -> Seq<char> {
    seq![']', '}']
}

// ---------------------------------------------------------------------------
// Escaping of string content.
// ---------------------------------------------------------------------------
/// How one character is written inside a quoted string: a quote or a
/// backslash gets a leading backslash, anything else stands as itself.
pub open spec fn esc_char(c: char) -> Seq<char> {
    if c == '"' || c == '\\' {
        seq!['\\', c]
    } else {
        seq![c]
    }
}

/// The escaped form of a whole string.
pub open spec fn escape(s: Seq<char>) -> Seq<char>
    decreases s.len(),
{
    if s.len() == 0 {
        Seq::empty()
    } else {
        esc_char(s[0]) + escape(s.drop_first())
    }
}

// ---------------------------------------------------------------------------
// The encoding of a message.
// ---------------------------------------------------------------------------
/// The items of a user list, written after the opening bracket: quoted
/// escaped names separated by commas, closed by the list end.
pub open spec fn encode_names(names: Seq<Seq<char>>) -> Seq<char>
    decreases names.len(),
{
    if names.len() == 0 {
        end_list()
    } else {
        quote_s() + escape(names[0]) + quote_s() + if names.len() == 1 {
            end_list()
        } else {
            comma_s() + encode_names(names.drop_first())
        }
    }
}

/// The full frame for a message. Total: every constructible message has an
/// encoding; an `Unrecognized` frame is carried through as it arrived.
pub open spec fn encode_msg(m: MessageView) -> Seq<char> {
    match m {
        MessageView::Chat { text, from: None } => chat_prefix() + escape(text) + quote_s()
            + end_obj(),
        MessageView::Chat { text, from: Some(f) } => chat_prefix() + escape(text) + quote_s()
            + from_sep() + escape(f) + quote_s() + end_obj(),
        MessageView::Join { user } => join_prefix() + escape(user.name) + quote_s() + room_sep()
            + escape(user.room) + quote_s() + end_obj(),
        MessageView::UserListUpdate { names } => list_prefix() + encode_names(names),
        MessageView::Unrecognized { raw } => raw,
    }
}

// ---------------------------------------------------------------------------
// The decoder, as a total function on frames.
// ---------------------------------------------------------------------------
/// Scan a quoted string's content from index `i` (just past the opening
/// quote): `acc` plus the unescaped content, and the index just past the
/// closing quote. `None` on a frame that ends or escapes wrongly first.
pub open spec fn parse_str(f: Seq<char>, i: int, acc: Seq<char>) -> Option<(Seq<char>, int)>
    decreases f.len() - i,
{
    if i < 0 || i >= f.len() {
        None
    } else if f[i] == '"' {
        Some((acc, i + 1))
    } else if f[i] == '\\' {
        if i + 1 < f.len() && (f[i + 1] == '"' || f[i + 1] == '\\') {
            parse_str(f, i + 2, acc.push(f[i + 1]))
        } else {
            None
        }
    } else {
        parse_str(f, i + 1, acc.push(f[i]))
    }
}

/// Scan a non-empty list of quoted strings from index `i`: the collected
/// names and the index just past the closing bracket.
pub open spec fn parse_list(f: Seq<char>, i: int, acc: Seq<Seq<char>>) -> Option<
    (Seq<Seq<char>>, int),
>
    decreases f.len() - i,
{
    if i < 0 || i >= f.len() {
        None
    } else if f[i] != '"' {
        None
    } else {
        match parse_str(f, i + 1, Seq::empty()) {
            None => None,
            Some((s, e)) => if e >= f.len() {
                None
            } else if f[e] == ',' {
                if i < e {
                    parse_list(f, e + 1, acc.push(s))
                } else {
                    None
                }
            } else if f[e] == ']' {
                Some((acc.push(s), e + 1))
            } else {
                None
            },
        }
    }
}

/// Does `p` stand in `f` at index `i`?
pub open spec fn matches_at(f: Seq<char>, i: int, p: Seq<char>) -> bool {
    0 <= i && i + p.len() <= f.len() && f.subrange(i, i + p.len()) == p
}

/// Does `f` begin with `p`?
pub open spec fn starts_with(f: Seq<char>, p: Seq<char>) -> bool {
    matches_at(f, 0, p)
}

pub open spec fn decode_chat(f: Seq<char>) -> MessageView {
    match parse_str(f, chat_prefix().len() as int, Seq::empty()) {
        None => MessageView::Unrecognized { raw: f },
        Some((text, e)) => if e + 2 == f.len() && f[e] == '}' && f[e + 1] == '}' {
            MessageView::Chat { text, from: None }
        } else if matches_at(f, e, from_sep()) {
            match parse_str(f, e + from_sep().len(), Seq::empty()) {
                None => MessageView::Unrecognized { raw: f },
                Some((from, e2)) => if e2 + 2 == f.len() && f[e2] == '}' && f[e2 + 1] == '}' {
                    MessageView::Chat { text, from: Some(from) }
                } else {
                    MessageView::Unrecognized { raw: f }
                },
            }
        } else {
            MessageView::Unrecognized { raw: f }
        },
    }
}

pub open spec fn decode_join(f: Seq<char>) -> MessageView {
    match parse_str(f, join_prefix().len() as int, Seq::empty()) {
        None => MessageView::Unrecognized { raw: f },
        Some((name, e)) => if matches_at(f, e, room_sep()) {
            match parse_str(f, e + room_sep().len(), Seq::empty()) {
                None => MessageView::Unrecognized { raw: f },
                Some((room, e2)) => if e2 + 2 == f.len() && f[e2] == '}' && f[e2 + 1] == '}' {
                    MessageView::Join { user: UserView { name, room } }
                } else {
                    MessageView::Unrecognized { raw: f }
                },
            }
        } else {
            MessageView::Unrecognized { raw: f }
        },
    }
}

pub open spec fn decode_list(f: Seq<char>) -> MessageView {
    let p0 = list_prefix().len() as int;
    if p0 < f.len() && f[p0] == ']' {
        if p0 + 2 == f.len() && f[p0 + 1] == '}' {
            MessageView::UserListUpdate { names: Seq::empty() }
        } else {
            MessageView::Unrecognized { raw: f }
        }
    } else {
        match parse_list(f, p0, Seq::empty()) {
            None => MessageView::Unrecognized { raw: f },
            Some((names, e)) => if e + 1 == f.len() && f[e] == '}' {
                MessageView::UserListUpdate { names }
            } else {
                MessageView::Unrecognized { raw: f }
            },
        }
    }
}

/// The total decoder: the first matching discriminator wins, anything else is
/// `Unrecognized`. Never an error, whatever the frame holds.
pub open spec fn decode_msg(f: Seq<char>) -> MessageView {
    if starts_with(f, chat_prefix()) {
        decode_chat(f)
    } else if starts_with(f, join_prefix()) {
        decode_join(f)
    } else if starts_with(f, list_prefix()) {
        decode_list(f)
    } else {
        MessageView::Unrecognized { raw: f }
    }
}

// ---------------------------------------------------------------------------
// Facts about the scanner.
// ---------------------------------------------------------------------------
/// A pattern that stands at `i` splits there: each half stands at its place.
pub proof fn lemma_split(f: Seq<char>, i: int, a: Seq<char>, b: Seq<char>)
    requires
        matches_at(f, i, a + b),
    ensures
        matches_at(f, i, a),
        matches_at(f, i + a.len(), b),
{
    assert(f.subrange(i, i + a.len() as int) =~= a) by {
        assert forall|k: int| 0 <= k < a.len() implies f.subrange(i, i + a.len() as int)[k]
            == a[k] by {
            assert(f.subrange(i, i + (a + b).len() as int)[k] == f[i + k]);
            assert(f.subrange(i, i + a.len() as int)[k] == f[i + k]);
            assert((a + b)[k] == a[k]);
        }
    }
    assert(f.subrange(i + a.len() as int, i + a.len() + b.len()) =~= b) by {
        assert forall|k: int| 0 <= k < b.len() implies f.subrange(
            i + a.len() as int,
            i + a.len() + b.len(),
        )[k] == b[k] by {
            assert(f.subrange(i, i + (a + b).len() as int)[a.len() + k] == f[i + a.len() + k]);
            assert(f.subrange(i + a.len() as int, i + a.len() + b.len())[k] == f[
                i + a.len() + k
            ]);
            assert((a + b)[a.len() + k] == b[k]);
        }
    }
}

/// One character of a pattern that stands at `i`.
pub proof fn lemma_char_at(f: Seq<char>, i: int, p: Seq<char>, k: int)
    requires
        matches_at(f, i, p),
        0 <= k < p.len(),
    ensures
        f[i + k] == p[k],
{
    assert(f.subrange(i, i + p.len() as int)[k] == f[i + k]);
}

/// Scanning an escaped string followed by its closing quote recovers exactly
/// the original content and stops just past the quote.
pub proof fn lemma_parse_escaped(f: Seq<char>, i: int, acc: Seq<char>, c: Seq<char>)
    requires
        matches_at(f, i, escape(c) + quote_s()),
    ensures
        parse_str(f, i, acc) == Some((acc + c, i + escape(c).len() + 1)),
    decreases c.len(),
{
    if c.len() == 0 {
        assert(escape(c) == Seq::<char>::empty());
        assert(escape(c) + quote_s() =~= quote_s());
        lemma_char_at(f, i, quote_s(), 0);
        assert(f[i] == '"');
        assert(acc + c =~= acc);
    } else {
        let c0 = c[0];
        let rest = c.drop_first();
        assert(escape(c) == esc_char(c0) + escape(rest));
        assert((esc_char(c0) + escape(rest)) + quote_s() =~= esc_char(c0) + (escape(rest)
            + quote_s()));
        lemma_split(f, i, esc_char(c0), escape(rest) + quote_s());
        if c0 == '"' || c0 == '\\' {
            lemma_char_at(f, i, esc_char(c0), 0);
            lemma_char_at(f, i, esc_char(c0), 1);
            assert(f[i] == '\\');
            assert(f[i + 1] == c0);
            lemma_parse_escaped(f, i + 2, acc.push(c0), rest);
            assert(acc.push(c0) + rest =~= acc + c);
            assert(i + 1 < f.len());
            assert(parse_str(f, i, acc) == parse_str(f, i + 2, acc.push(f[i + 1])));
        } else {
            lemma_char_at(f, i, esc_char(c0), 0);
            assert(f[i] == c0);
            lemma_parse_escaped(f, i + 1, acc.push(c0), rest);
            assert(acc.push(c0) + rest =~= acc + c);
            assert(parse_str(f, i, acc) == parse_str(f, i + 1, acc.push(f[i])));
        }
    }
}

/// The whole frame stands at its own start.
pub proof fn lemma_whole(f: Seq<char>)
    ensures
        matches_at(f, 0, f),
{
    assert(f.subrange(0, f.len() as int) =~= f);
}

/// An encoded list of names is at least two characters and ends in the
/// object's closing brace.
pub proof fn lemma_encode_names_last(names: Seq<Seq<char>>)
    ensures
        encode_names(names).len() >= 2,
        encode_names(names)[encode_names(names).len() - 1] == '}',
    decreases names.len(),
{
    if names.len() == 0 {
    } else if names.len() == 1 {
        let pre = quote_s() + escape(names[0]) + quote_s();
        assert(encode_names(names) == pre + end_list());
        assert((pre + end_list())[pre.len() as int + 1] == end_list()[1]);
    } else {
        lemma_encode_names_last(names.drop_first());
        let pre = quote_s() + escape(names[0]) + quote_s() + comma_s();
        let rest = encode_names(names.drop_first());
        assert(encode_names(names) =~= pre + rest);
        assert((pre + rest)[pre.len() + rest.len() - 1] == rest[rest.len() - 1]);
    }
}

/// Scanning an encoded non-empty list of names recovers exactly those names
/// and stops on the final closing brace.
pub proof fn lemma_parse_list_encoded(f: Seq<char>, i: int, acc: Seq<Seq<char>>, names: Seq<
    Seq<char>,
>)
    requires
        names.len() >= 1,
        matches_at(f, i, encode_names(names)),
    ensures
        parse_list(f, i, acc) == Some((acc + names, i + encode_names(names).len() - 1)),
    decreases names.len(),
{
    let n0 = names[0];
    let rest = names.drop_first();
    let q = quote_s();
    let item_tail: Seq<char> = if names.len() == 1 {
        end_list()
    } else {
        comma_s() + encode_names(rest)
    };
    assert(encode_names(names) == q + escape(n0) + q + item_tail);
    assert(((q + escape(n0)) + q) + item_tail =~= q + ((escape(n0) + q) + item_tail));
    lemma_split(f, i, q, (escape(n0) + q) + item_tail);
    lemma_char_at(f, i, q, 0);
    assert(f[i] == '"');
    lemma_split(f, i + 1, escape(n0) + q, item_tail);
    lemma_parse_escaped(f, i + 1, Seq::empty(), n0);
    let e: int = i + 1 + escape(n0).len() + 1;
    assert(Seq::empty() + n0 =~= n0);
    assert(parse_str(f, i + 1, Seq::empty()) == Some((n0, e)));
    if names.len() == 1 {
        lemma_char_at(f, e, end_list(), 0);
        assert(f[e] == ']');
        assert(acc.push(n0) =~= acc + names);
    } else {
        lemma_split(f, e, comma_s(), encode_names(rest));
        lemma_char_at(f, e, comma_s(), 0);
        assert(f[e] == ',');
        lemma_parse_list_encoded(f, e + 1, acc.push(n0), rest);
        assert(acc.push(n0) + rest =~= acc + names);
    }
}

/// Round trip, P-style: decoding an encoded message gives it back, for every
/// message that is not the `Unrecognized` carrier itself. (An `Unrecognized`
/// whose raw text happens to be a well-formed frame decodes to that frame
/// instead; such values never travel outward.)
#[verifier::rlimit(60)]
pub proof fn lemma_decode_encode(m: MessageView)
    requires
        !(m is Unrecognized),
    ensures
        decode_msg(encode_msg(m)) == m,
{
    reveal_strlit("{\"type\":\"chat\",\"content\":{\"text\":\"");
    reveal_strlit("{\"type\":\"join\",\"content\":{\"name\":\"");
    reveal_strlit("{\"type\":\"userListUpdate\",\"content\":[");
    reveal_strlit(",\"from\":\"");
    reveal_strlit(",\"room\":\"");
    let f = encode_msg(m);
    lemma_whole(f);
    match m {
        MessageView::Chat { text, from } => {
            let a = chat_prefix();
            match from {
                None => {
                    let tail = (escape(text) + quote_s()) + end_obj();
                    assert(f =~= a + tail);
                    lemma_split(f, 0, a, tail);
                    lemma_split(f, a.len() as int, escape(text) + quote_s(), end_obj());
                    lemma_parse_escaped(f, a.len() as int, Seq::empty(), text);
                    let e: int = a.len() as int + escape(text).len() + 1;
                    assert(Seq::empty() + text =~= text);
                    lemma_char_at(f, e, end_obj(), 0);
                    lemma_char_at(f, e, end_obj(), 1);
                    assert(decode_chat(f) == MessageView::Chat { text, from: None });
                },
                Some(fr) => {
                    let p1 = escape(text) + quote_s();
                    let p2 = escape(fr) + quote_s();
                    let rest3 = p2 + end_obj();
                    let rest2 = from_sep() + rest3;
                    let rest1 = p1 + rest2;
                    assert(f =~= a + rest1);
                    lemma_split(f, 0, a, rest1);
                    lemma_split(f, a.len() as int, p1, rest2);
                    lemma_parse_escaped(f, a.len() as int, Seq::empty(), text);
                    let e: int = a.len() as int + escape(text).len() + 1;
                    assert(Seq::empty() + text =~= text);
                    lemma_split(f, e, from_sep(), rest3);
                    lemma_char_at(f, e, from_sep(), 0);
                    assert(f[e] == ',');
                    lemma_split(f, e + from_sep().len() as int, p2, end_obj());
                    lemma_parse_escaped(f, e + from_sep().len() as int, Seq::empty(), fr);
                    let e2: int = e + from_sep().len() + escape(fr).len() + 1;
                    assert(Seq::empty() + fr =~= fr);
                    lemma_char_at(f, e2, end_obj(), 0);
                    lemma_char_at(f, e2, end_obj(), 1);
                    assert(decode_chat(f) == MessageView::Chat { text, from: Some(fr) });
                },
            }
            assert(starts_with(f, chat_prefix()));
        },
        MessageView::Join { user } => {
            let a = join_prefix();
            let p1 = escape(user.name) + quote_s();
            let p2 = escape(user.room) + quote_s();
            let rest3 = p2 + end_obj();
            let rest2 = room_sep() + rest3;
            let rest1 = p1 + rest2;
            assert(f =~= a + rest1);
            lemma_split(f, 0, a, rest1);
            assert(!starts_with(f, chat_prefix())) by {
                if starts_with(f, chat_prefix()) {
                    lemma_char_at(f, 0, chat_prefix(), 9);
                    lemma_char_at(f, 0, join_prefix(), 9);
                    assert(false);
                }
            }
            lemma_split(f, a.len() as int, p1, rest2);
            lemma_parse_escaped(f, a.len() as int, Seq::empty(), user.name);
            let e: int = a.len() as int + escape(user.name).len() + 1;
            assert(Seq::empty() + user.name =~= user.name);
            lemma_split(f, e, room_sep(), rest3);
            lemma_split(f, e + room_sep().len() as int, p2, end_obj());
            lemma_parse_escaped(f, e + room_sep().len() as int, Seq::empty(), user.room);
            let e2: int = e + room_sep().len() + escape(user.room).len() + 1;
            assert(Seq::empty() + user.room =~= user.room);
            lemma_char_at(f, e2, end_obj(), 0);
            lemma_char_at(f, e2, end_obj(), 1);
            assert(decode_join(f) == MessageView::Join {
                user: UserView { name: user.name, room: user.room },
            });
            assert(UserView { name: user.name, room: user.room } =~= user);
        },
        MessageView::UserListUpdate { names } => {
            let a = list_prefix();
            assert(f == a + encode_names(names));
            lemma_split(f, 0, a, encode_names(names));
            assert(!starts_with(f, chat_prefix())) by {
                if starts_with(f, chat_prefix()) {
                    lemma_char_at(f, 0, chat_prefix(), 9);
                    lemma_char_at(f, 0, list_prefix(), 9);
                    assert(false);
                }
            }
            assert(!starts_with(f, join_prefix())) by {
                if starts_with(f, join_prefix()) {
                    lemma_char_at(f, 0, join_prefix(), 9);
                    lemma_char_at(f, 0, list_prefix(), 9);
                    assert(false);
                }
            }
            let p0 = a.len() as int;
            if names.len() == 0 {
                assert(encode_names(names) == end_list());
                lemma_char_at(f, p0, end_list(), 0);
                lemma_char_at(f, p0, end_list(), 1);
                assert(decode_list(f) == MessageView::UserListUpdate {
                    names: Seq::<Seq<char>>::empty(),
                });
                assert(names =~= Seq::<Seq<char>>::empty());
            } else {
                lemma_char_at(f, p0, encode_names(names), 0);
                assert(encode_names(names)[0] == '"') by {
                    let q = quote_s();
                    let tail: Seq<char> = if names.len() == 1 {
                        end_list()
                    } else {
                        comma_s() + encode_names(names.drop_first())
                    };
                    assert(encode_names(names) == q + escape(names[0]) + q + tail);
                    assert((((q + escape(names[0])) + q) + tail)[0] == q[0]);
                }
                assert(f[p0] != ']');
                lemma_parse_list_encoded(f, p0, Seq::empty(), names);
                assert(Seq::empty() + names =~= names);
                let e: int = p0 + encode_names(names).len() - 1;
                lemma_encode_names_last(names);
                lemma_char_at(f, p0, encode_names(names), encode_names(names).len() - 1);
                assert(f[e] == '}');
                assert(decode_list(f) == MessageView::UserListUpdate { names });
            }
        },
        MessageView::Unrecognized { raw } => {
        },
    }
}

// ---------------------------------------------------------------------------
// Executable encoder.
// ---------------------------------------------------------------------------
/// Relies on String::push: appends exactly the one character.
#[verifier::external_body]
fn push_char(s: &mut String, c: char)
    ensures
        final(s)@ == old(s)@.push(c),
{
    s.push(c);
}

/// The escaped form of a string, executable.
pub fn escape_exec(s: &str) -> (r: String)
    ensures
        r@ == escape(s@),
{
    let n = s.unicode_len();
    let mut out = String::new();
    let mut i: usize = 0;
    proof {
        assert(s@.skip(0) =~= s@);
        assert(Seq::<char>::empty() + escape(s@) =~= escape(s@));
    }
    while i < n
        invariant
            i <= n,
            n == s@.len(),
            escape(s@) == out@ + escape(s@.skip(i as int)),
        decreases n - i,
    {
        let c = s.get_char(i);
        proof {
            assert(s@.skip(i as int).drop_first() =~= s@.skip(i as int + 1));
            assert(s@.skip(i as int)[0] == s@[i as int]);
        }
        let ghost old_out = out@;
        if c == '"' || c == '\\' {
            push_char(&mut out, '\\');
            push_char(&mut out, c);
            proof {
                assert(out@ =~= old_out + esc_char(c));
            }
        } else {
            push_char(&mut out, c);
            proof {
                assert(out@ =~= old_out + esc_char(c));
            }
        }
        proof {
            assert(escape(s@.skip(i as int)) == esc_char(s@[i as int]) + escape(
                s@.skip(i as int + 1),
            ));
            assert(old_out + (esc_char(c) + escape(s@.skip(i as int + 1))) =~= (old_out
                + esc_char(c)) + escape(s@.skip(i as int + 1)));
        }
        i = i + 1;
    }
    proof {
        assert(s@.skip(n as int) =~= Seq::<char>::empty());
        assert(out@ + Seq::<char>::empty() =~= out@);
    }
    out
}

/// Encode the items of a user list after the opening bracket.
fn encode_list_exec(names: &Vec<String>) -> (r: String)
    ensures
        r@ == list_prefix() + encode_names(names@.map_values(|s: String| s@)),
{
    let ghost vnames = names@.map_values(|s: String| s@);
    let mut s = String::from_str("{\"type\":\"userListUpdate\",\"content\":[");
    if names.len() == 0 {
        push_char(&mut s, ']');
        push_char(&mut s, '}');
        proof {
            assert(encode_names(vnames) == end_list());
            assert(s@ =~= list_prefix() + end_list());
        }
        return s;
    }
    let mut k: usize = 0;
    proof {
        assert(vnames.skip(0) =~= vnames);
        assert(s@ + encode_names(vnames) =~= list_prefix() + encode_names(vnames));
    }
    while k < names.len()
        invariant
            k <= names@.len(),
            1 <= names@.len(),
            vnames == names@.map_values(|t: String| t@),
            vnames.len() == names@.len(),
            k < names@.len() ==> s@ + encode_names(vnames.skip(k as int)) == list_prefix()
                + encode_names(vnames),
            k == names@.len() ==> s@ == list_prefix() + encode_names(vnames),
        decreases names@.len() - k,
    {
        let e = escape_exec(names[k].as_str());
        let ghost old_s = s@;
        push_char(&mut s, '"');
        s.append(e.as_str());
        push_char(&mut s, '"');
        proof {
            assert(vnames.skip(k as int)[0] == vnames[k as int]);
            assert(vnames.skip(k as int).drop_first() =~= vnames.skip(k as int + 1));
            assert(vnames.skip(k as int).len() == vnames.len() - k);
        }
        if k + 1 < names.len() {
            push_char(&mut s, ',');
            proof {
                assert(encode_names(vnames.skip(k as int)) == quote_s() + escape(
                    vnames[k as int],
                ) + quote_s() + (comma_s() + encode_names(vnames.skip(k as int + 1))));
                assert(s@ =~= old_s + (quote_s() + escape(vnames[k as int]) + quote_s()
                    + comma_s()));
                assert(s@ + encode_names(vnames.skip(k as int + 1)) =~= old_s + encode_names(
                    vnames.skip(k as int),
                ));
            }
        } else {
            push_char(&mut s, ']');
            push_char(&mut s, '}');
            proof {
                assert(vnames.skip(k as int).len() == 1);
                assert(encode_names(vnames.skip(k as int)) == quote_s() + escape(
                    vnames[k as int],
                ) + quote_s() + end_list());
                assert(s@ =~= old_s + encode_names(vnames.skip(k as int)));
            }
        }
        k = k + 1;
    }
    s
}

/// Encode a message as a frame. Total: never fails for any constructible
/// message.
pub fn encode(m: &ProtocolMessage) -> (r: String)
    ensures
        r@ == encode_msg(m@),
{
    match m {
        ProtocolMessage::Chat { text, from } => {
            let mut s = String::from_str("{\"type\":\"chat\",\"content\":{\"text\":\"");
            let e = escape_exec(text.as_str());
            s.append(e.as_str());
            push_char(&mut s, '"');
            match from {
                Option::None => {
                    push_char(&mut s, '}');
                    push_char(&mut s, '}');
                    proof {
                        assert(s@ =~= chat_prefix() + escape(text@) + quote_s() + end_obj());
                    }
                    s
                },
                Option::Some(fr) => {
                    s.append(",\"from\":\"");
                    let e2 = escape_exec(fr.as_str());
                    s.append(e2.as_str());
                    push_char(&mut s, '"');
                    push_char(&mut s, '}');
                    push_char(&mut s, '}');
                    proof {
                        assert(s@ =~= chat_prefix() + escape(text@) + quote_s() + from_sep()
                            + escape(fr@) + quote_s() + end_obj());
                    }
                    s
                },
            }
        },
        ProtocolMessage::Join { user } => {
            let mut s = String::from_str("{\"type\":\"join\",\"content\":{\"name\":\"");
            let e = escape_exec(user.name.as_str());
            s.append(e.as_str());
            push_char(&mut s, '"');
            s.append(",\"room\":\"");
            let e2 = escape_exec(user.room.as_str());
            s.append(e2.as_str());
            push_char(&mut s, '"');
            push_char(&mut s, '}');
            push_char(&mut s, '}');
            proof {
                assert(s@ =~= join_prefix() + escape(user.name@) + quote_s() + room_sep()
                    + escape(user.room@) + quote_s() + end_obj());
            }
            s
        },
        ProtocolMessage::UserListUpdate { names } => encode_list_exec(names),
        ProtocolMessage::Unrecognized { raw } => raw.clone(),
    }
}

// ---------------------------------------------------------------------------
// Executable decoder.
// ---------------------------------------------------------------------------
/// Does `pat` stand in `f` at character index `i`?
fn str_eq_at(f: &str, i: usize, pat: &str) -> (r: bool)
    ensures
        r == matches_at(f@, i as int, pat@),
{
    let n = f.unicode_len();
    let m = pat.unicode_len();
    if m > n || i > n - m {
        return false;
    }
    let mut k: usize = 0;
    while k < m
        invariant
            i + m <= n,
            n == f@.len(),
            m == pat@.len(),
            k <= m,
            forall|j: int| 0 <= j < k ==> f@[i + j] == pat@[j],
        decreases m - k,
    {
        if f.get_char(i + k) != pat.get_char(k) {
            proof {
                if matches_at(f@, i as int, pat@) {
                    lemma_char_at(f@, i as int, pat@, k as int);
                    assert(false);
                }
            }
            return false;
        }
        k = k + 1;
    }
    proof {
        assert(f@.subrange(i as int, i + pat@.len()) =~= pat@) by {
            assert forall|j: int| 0 <= j < pat@.len() implies f@.subrange(
                i as int,
                i + pat@.len(),
            )[j] == pat@[j] by {
                assert(f@.subrange(i as int, i + pat@.len())[j] == f@[i + j]);
            }
        }
    }
    true
}

/// Scan a quoted string's content starting just past the opening quote.
fn take_string(f: &str, start: usize) -> (r: Option<(String, usize)>)
    requires
        start <= f@.len(),
    ensures
        match r {
            Some(p) => parse_str(f@, start as int, Seq::empty()) == Some((p.0@, p.1 as int))
                && start < p.1 <= f@.len(),
            None => parse_str(f@, start as int, Seq::empty()) is None,
        },
{
    let n = f.unicode_len();
    let mut i: usize = start;
    let mut acc = String::new();
    loop
        invariant
            start <= i <= n,
            n == f@.len(),
            parse_str(f@, start as int, Seq::empty()) == parse_str(f@, i as int, acc@),
        decreases n - i,
    {
        if i >= n {
            return None;
        }
        let c = f.get_char(i);
        if c == '"' {
            return Some((acc, i + 1));
        } else if c == '\\' {
            if i + 1 >= n {
                return None;
            }
            let c2 = f.get_char(i + 1);
            if c2 == '"' || c2 == '\\' {
                push_char(&mut acc, c2);
                i = i + 2;
            } else {
                return None;
            }
        } else {
            push_char(&mut acc, c);
            i = i + 1;
        }
    }
}

fn decode_chat_exec(f: &str) -> (r: ProtocolMessage)
    requires
        starts_with(f@, chat_prefix()),
    ensures
        r@ == decode_chat(f@),
{
    let p = "{\"type\":\"chat\",\"content\":{\"text\":\"";
    let plen = p.unicode_len();
    let n = f.unicode_len();
    match take_string(f, plen) {
        Option::None => ProtocolMessage::Unrecognized { raw: String::from_str(f) },
        Option::Some((text, e)) => {
            if n - e == 2 && f.get_char(e) == '}' && f.get_char(e + 1) == '}' {
                ProtocolMessage::Chat { text, from: Option::None }
            } else if str_eq_at(f, e, ",\"from\":\"") {
                let sep = ",\"from\":\"";
                let e1 = e + sep.unicode_len();
                match take_string(f, e1) {
                    Option::None => ProtocolMessage::Unrecognized {
                        raw: String::from_str(f),
                    },
                    Option::Some((fr, e2)) => {
                        if n - e2 == 2 && f.get_char(e2) == '}' && f.get_char(e2 + 1) == '}' {
                            ProtocolMessage::Chat { text, from: Option::Some(fr) }
                        } else {
                            ProtocolMessage::Unrecognized { raw: String::from_str(f) }
                        }
                    },
                }
            } else {
                ProtocolMessage::Unrecognized { raw: String::from_str(f) }
            }
        },
    }
}

fn decode_join_exec(f: &str) -> (r: ProtocolMessage)
    requires
        starts_with(f@, join_prefix()),
    ensures
        r@ == decode_join(f@),
{
    let p = "{\"type\":\"join\",\"content\":{\"name\":\"";
    let plen = p.unicode_len();
    let n = f.unicode_len();
    match take_string(f, plen) {
        Option::None => ProtocolMessage::Unrecognized { raw: String::from_str(f) },
        Option::Some((name, e)) => {
            if str_eq_at(f, e, ",\"room\":\"") {
                let sep = ",\"room\":\"";
                let e1 = e + sep.unicode_len();
                match take_string(f, e1) {
                    Option::None => ProtocolMessage::Unrecognized {
                        raw: String::from_str(f),
                    },
                    Option::Some((room, e2)) => {
                        if n - e2 == 2 && f.get_char(e2) == '}' && f.get_char(e2 + 1) == '}' {
                            ProtocolMessage::Join { user: UserInfo { name, room } }
                        } else {
                            ProtocolMessage::Unrecognized { raw: String::from_str(f) }
                        }
                    },
                }
            } else {
                ProtocolMessage::Unrecognized { raw: String::from_str(f) }
            }
        },
    }
}

fn decode_list_exec(f: &str) -> (r: ProtocolMessage)
    requires
        starts_with(f@, list_prefix()),
    ensures
        r@ == decode_list(f@),
{
    let p = "{\"type\":\"userListUpdate\",\"content\":[";
    let plen = p.unicode_len();
    let n = f.unicode_len();
    if plen < n && f.get_char(plen) == ']' {
        if n - plen == 2 && f.get_char(plen + 1) == '}' {
            let names: Vec<String> = Vec::new();
            proof {
                assert(names@.map_values(|s: String| s@) =~= Seq::<Seq<char>>::empty());
            }
            ProtocolMessage::UserListUpdate { names }
        } else {
            ProtocolMessage::Unrecognized { raw: String::from_str(f) }
        }
    } else {
        let mut names: Vec<String> = Vec::new();
        let mut i: usize = plen;
        proof {
            assert(names@.map_values(|s: String| s@) =~= Seq::<Seq<char>>::empty());
        }
        loop
            invariant
                plen == list_prefix().len(),
                plen <= i <= n,
                n == f@.len(),
                starts_with(f@, list_prefix()),
                !(plen < n && f@[plen as int] == ']'),
                parse_list(f@, plen as int, Seq::empty()) == parse_list(
                    f@,
                    i as int,
                    names@.map_values(|s: String| s@),
                ),
            decreases n - i,
        {
            if i >= n {
                proof {
                    assert(parse_list(f@, i as int, names@.map_values(|s: String| s@))
                        is None);
                }
                return ProtocolMessage::Unrecognized { raw: String::from_str(f) };
            }
            if f.get_char(i) != '"' {
                proof {
                    assert(f@[i as int] != '"');
                    assert(parse_list(f@, i as int, names@.map_values(|s: String| s@))
                        is None);
                }
                return ProtocolMessage::Unrecognized { raw: String::from_str(f) };
            }
            match take_string(f, i + 1) {
                Option::None => {
                    return ProtocolMessage::Unrecognized { raw: String::from_str(f) };
                },
                Option::Some((s1, e)) => {
                    if e >= n {
                        return ProtocolMessage::Unrecognized { raw: String::from_str(f) };
                    }
                    let c = f.get_char(e);
                    if c == ',' {
                        let ghost old_names = names@;
                        names.push(s1);
                        proof {
                            assert(names@.map_values(|s: String| s@) =~= old_names.map_values(
                                |s: String| s@,
                            ).push(names@[old_names.len() as int]@));
                        }
                        i = e + 1;
                    } else if c == ']' {
                        let ghost old_names = names@;
                        names.push(s1);
                        proof {
                            assert(names@.map_values(|s: String| s@) =~= old_names.map_values(
                                |s: String| s@,
                            ).push(names@[old_names.len() as int]@));
                        }
                        if n - (e + 1) == 1 && f.get_char(e + 1) == '}' {
                            return ProtocolMessage::UserListUpdate { names };
                        } else {
                            return ProtocolMessage::Unrecognized { raw: String::from_str(f) };
                        }
                    } else {
                        return ProtocolMessage::Unrecognized { raw: String::from_str(f) };
                    }
                },
            }
        }
    }
}

/// Decode a frame. Total over any input: anything that matches no known
/// shape comes back as `Unrecognized`, never as an error.
pub fn decode(f: &str) -> (r: ProtocolMessage)
    ensures
        r@ == decode_msg(f@),
{
    if str_eq_at(f, 0, "{\"type\":\"chat\",\"content\":{\"text\":\"") {
        decode_chat_exec(f)
    } else if str_eq_at(f, 0, "{\"type\":\"join\",\"content\":{\"name\":\"") {
        decode_join_exec(f)
    } else if str_eq_at(f, 0, "{\"type\":\"userListUpdate\",\"content\":[") {
        decode_list_exec(f)
    } else {
        ProtocolMessage::Unrecognized { raw: String::from_str(f) }
    }
}

} // verus!

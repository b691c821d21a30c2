//! The serializer: a canonical JSON-style encoding of the credential mapping.
//!
//! A mapping is written as `{"passwords":{"account":"secret",...}}`. Inside
//! the quotes, `"` and `\` are escaped with a backslash; every other
//! character, control characters included, is stored verbatim. Decoding
//! accepts exactly this shape and rejects everything else, and round-trips:
//! decoding an encoded entry sequence gives the sequence back.

use vstd::prelude::*;

verus! {

/// How one character is written inside a quoted string.
pub open spec fn escaped_char(c: char) -> Seq<char> {
    if c == '"' {
        seq!['\\', '"']
    } else if c == '\\' {
        seq!['\\', '\\']
    } else {
        seq![c]
    }
}

/// How a whole string is written inside its quotes.
pub open spec fn escaped(s: Seq<char>) -> Seq<char>
    decreases s.len(),
{
    if s.len() == 0 {
        Seq::empty()
    } else {
        escaped_char(s[0]) + escaped(s.drop_first())
    }
}

/// A string between its quotes.
pub open spec fn quoted(s: Seq<char>) -> Seq<char> {
    seq!['"'] + escaped(s) + seq!['"']
}

/// One `"account":"secret"` pair.
pub open spec fn encoded_entry(k: Seq<char>, v: Seq<char>) -> Seq<char> {
    quoted(k) + seq![':'] + quoted(v)
}

/// The comma-separated entry list.
pub open spec fn encoded_entries(es: Seq<(Seq<char>, Seq<char>)>) -> Seq<char>
    decreases es.len(),
{
    if es.len() == 0 {
        Seq::empty()
    } else if es.len() == 1 {
        encoded_entry(es[0].0, es[0].1)
    } else {
        encoded_entry(es[0].0, es[0].1) + seq![','] + encoded_entries(es.drop_first())
    }
}

/// The opening `{"passwords":{` of every encoded mapping.
pub open spec fn header() -> Seq<char> {
    seq!['{', '"', 'p', 'a', 's', 's', 'w', 'o', 'r', 'd', 's', '"', ':', '{']
}

/// The closing `}}` of every encoded mapping.
pub open spec fn footer() -> Seq<char> {
    seq!['}', '}']
}

/// The full encoding of an entry sequence.
pub open spec fn spec_encode(es: Seq<(Seq<char>, Seq<char>)>) -> Seq<char> {
    header() + encoded_entries(es) + footer()
}

/// Parses a quoted string from the characters after its opening quote:
/// the string's characters and whatever follows the closing quote, or
/// nothing if no well-formed closing quote is found.
pub open spec fn parse_string(s: Seq<char>) -> Option<(Seq<char>, Seq<char>)>
    decreases s.len(),
{
    if s.len() == 0 {
        None
    } else if s[0] == '"' {
        Some((Seq::empty(), s.drop_first()))
    } else if s[0] == '\\' {
        if s.len() < 2 || !(s[1] == '"' || s[1] == '\\') {
            None
        } else {
            match parse_string(s.skip(2)) {
                Some((content, rest)) => Some((seq![s[1]] + content, rest)),
                None => None,
            }
        }
    } else {
        match parse_string(s.drop_first()) {
            Some((content, rest)) => Some((seq![s[0]] + content, rest)),
            None => None,
        }
    }
}

/// A successful string parse consumes at least the closing quote.
pub proof fn lemma_parse_string_shrinks(s: Seq<char>)
    ensures
        parse_string(s) matches Some(p) ==> p.1.len() < s.len(),
    decreases s.len(),
{
    if s.len() == 0 {
    } else if s[0] == '"' {
    } else if s[0] == '\\' {
        if s.len() >= 2 && (s[1] == '"' || s[1] == '\\') {
            lemma_parse_string_shrinks(s.skip(2));
        }
    } else {
        lemma_parse_string_shrinks(s.drop_first());
    }
}

/// Parses a nonempty entry list followed by the footer and the end of
/// input, starting at the opening quote of the first account name.
pub open spec fn parse_entries(s: Seq<char>) -> Option<Seq<(Seq<char>, Seq<char>)>>
    decreases s.len(),
        via parse_entries_decreases
{
    if s.len() == 0 || s[0] != '"' {
        None
    } else {
        match parse_string(s.drop_first()) {
            None => None,
            Some((k, rest1)) => {
                if rest1.len() < 2 || rest1[0] != ':' || rest1[1] != '"' {
                    None
                } else {
                    match parse_string(rest1.skip(2)) {
                        None => None,
                        Some((v, rest2)) => {
                            if rest2 == footer() {
                                Some(seq![(k, v)])
                            } else if rest2.len() >= 1 && rest2[0] == ',' {
                                match parse_entries(rest2.drop_first()) {
                                    Some(more) => Some(seq![(k, v)] + more),
                                    None => None,
                                }
                            } else {
                                None
                            }
                        },
                    }
                }
            },
        }
    }
}

#[via_fn]
proof fn parse_entries_decreases(s: Seq<char>) {
    if s.len() > 0 && s[0] == '"' {
        lemma_parse_string_shrinks(s.drop_first());
        match parse_string(s.drop_first()) {
            None => {},
            Some((k, rest1)) => {
                if rest1.len() >= 2 && rest1[0] == ':' && rest1[1] == '"' {
                    lemma_parse_string_shrinks(rest1.skip(2));
                }
            },
        }
    }
}

/// Parsing a string's escaped form gives the string back and leaves exactly
/// what followed the closing quote.
pub proof fn lemma_parse_escaped(s: Seq<char>, rest: Seq<char>)
    ensures
        parse_string(escaped(s) + seq!['"'] + rest) == Some((s, rest)),
    decreases s.len(),
{
    let input = escaped(s) + seq!['"'] + rest;
    if s.len() == 0 {
        assert(input =~= seq!['"'] + rest);
        assert(input[0] == '"');
        assert(input.drop_first() =~= rest);
    } else {
        let c = s[0];
        let tail_input = escaped(s.drop_first()) + seq!['"'] + rest;
        lemma_parse_escaped(s.drop_first(), rest);
        if c == '"' || c == '\\' {
            assert(input =~= seq!['\\', c] + tail_input);
            assert(input[0] == '\\' && input[1] == c);
            assert(input.skip(2) =~= tail_input);
            assert(seq![c] + s.drop_first() =~= s);
        } else {
            assert(input =~= seq![c] + tail_input);
            assert(input[0] == c);
            assert(input.drop_first() =~= tail_input);
            assert(seq![c] + s.drop_first() =~= s);
        }
    }
}

/// A nonempty entry sequence never encodes to nothing.
pub proof fn lemma_encoded_entries_nonempty(es: Seq<(Seq<char>, Seq<char>)>)
    ensures
        es.len() > 0 ==> encoded_entries(es).len() > 0,
{
    if es.len() > 0 {
        assert(encoded_entry(es[0].0, es[0].1).len() > 0);
    }
}

/// Parsing the encoding of a nonempty entry sequence, followed by the
/// footer, gives the sequence back.
pub proof fn lemma_parse_encoded_entries(es: Seq<(Seq<char>, Seq<char>)>)
    requires
        es.len() > 0,
    ensures
        parse_entries(encoded_entries(es) + footer()) == Some(es),
    decreases es.len(),
{
    let input = encoded_entries(es) + footer();
    let k = es[0].0;
    let v = es[0].1;
    let tail: Seq<char> = if es.len() == 1 {
        footer()
    } else {
        seq![','] + encoded_entries(es.drop_first()) + footer()
    };
    let r1 = seq![':'] + seq!['"'] + escaped(v) + seq!['"'] + tail;
    assert(input =~= seq!['"'] + (escaped(k) + seq!['"'] + r1));
    assert(input[0] == '"');
    assert(input.drop_first() =~= escaped(k) + seq!['"'] + r1);
    lemma_parse_escaped(k, r1);
    assert(r1[0] == ':' && r1[1] == '"');
    assert(r1.skip(2) =~= escaped(v) + seq!['"'] + tail);
    lemma_parse_escaped(v, tail);
    if es.len() == 1 {
        assert(tail == footer());
        assert(seq![(k, v)] =~= es);
    } else {
        assert(tail[0] == ',');
        assert(tail != footer());
        assert(tail.drop_first() =~= encoded_entries(es.drop_first()) + footer());
        lemma_parse_encoded_entries(es.drop_first());
        assert(seq![(k, v)] + es.drop_first() =~= es);
    }
}

/// The serializer round-trips: decoding an encoded entry sequence gives the
/// sequence back, for every entry sequence, the empty one included.
pub proof fn lemma_codec_round_trip(es: Seq<(Seq<char>, Seq<char>)>)
    ensures
        spec_decode(spec_encode(es)) == Some(es),
{
    let enc = spec_encode(es);
    assert(enc.len() >= header().len() + footer().len());
    assert(enc.subrange(0, header().len() as int) =~= header());
    assert(enc.skip(header().len() as int) =~= encoded_entries(es) + footer());
    if es.len() == 0 {
        assert(enc.skip(header().len() as int) =~= footer());
        assert(es =~= Seq::<(Seq<char>, Seq<char>)>::empty());
    } else {
        lemma_encoded_entries_nonempty(es);
        assert(enc.skip(header().len() as int).len() != footer().len());
        lemma_parse_encoded_entries(es);
    }
}

/// The full decoding: the header, then either the immediate footer (an
/// empty mapping) or a nonempty entry list.
pub open spec fn spec_decode(s: Seq<char>) -> Option<Seq<(Seq<char>, Seq<char>)>> {
    if s.len() < header().len() + footer().len() || s.subrange(0, header().len() as int) != header() {
        None
    } else if s.skip(header().len() as int) == footer() {
        Some(Seq::empty())
    } else {
        parse_entries(s.skip(header().len() as int))
    }
}

/// The views of a sequence of owned entries.
pub open spec fn entry_views(es: Seq<(String, String)>) -> Seq<(Seq<char>, Seq<char>)> {
    es.map_values(|e: (String, String)| (e.0@, e.1@))
}

/// Escaping one more character extends the escaped form on the right.
pub proof fn lemma_escaped_push(s: Seq<char>, c: char)
    ensures
        escaped(s.push(c)) == escaped(s) + escaped_char(c),
    decreases s.len(),
{
    if s.len() == 0 {
        let p = s.push(c);
        assert(p.len() == 1);
        assert(p[0] == c);
        assert(p.drop_first() =~= Seq::<char>::empty());
        assert(escaped(p) == escaped_char(c) + escaped(p.drop_first()));
        assert(escaped(p.drop_first()).len() == 0);
        assert(escaped(p) =~= escaped_char(c));
        assert(escaped(s).len() == 0);
        assert(escaped(s) + escaped_char(c) =~= escaped_char(c));
    } else {
        assert(s.push(c)[0] == s[0]);
        assert(s.push(c).drop_first() =~= s.drop_first().push(c));
        lemma_escaped_push(s.drop_first(), c);
        assert(escaped_char(s[0]) + (escaped(s.drop_first()) + escaped_char(c)) =~= (escaped_char(
            s[0],
        ) + escaped(s.drop_first())) + escaped_char(c));
    }
}

/// Encoding one more entry appends it, with a comma where the list was
/// nonempty already.
pub proof fn lemma_encoded_entries_push(es: Seq<(Seq<char>, Seq<char>)>, k: Seq<char>, v: Seq<char>)
    ensures
        encoded_entries(es.push((k, v))) == if es.len() == 0 {
            encoded_entry(k, v)
        } else {
            encoded_entries(es) + seq![','] + encoded_entry(k, v)
        },
    decreases es.len(),
{
    let esp = es.push((k, v));
    if es.len() == 0 {
        assert(esp.len() == 1);
        assert(esp[0] == (k, v));
    } else {
        assert(esp[0] == es[0]);
        assert(esp.drop_first() =~= es.drop_first().push((k, v)));
        lemma_encoded_entries_push(es.drop_first(), k, v);
        if es.len() == 1 {
            assert(es.drop_first().len() == 0);
            assert(encoded_entries(esp) =~= encoded_entries(es) + seq![','] + encoded_entry(k, v));
        } else {
            assert(encoded_entries(esp) =~= encoded_entries(es) + seq![','] + encoded_entry(k, v));
        }
    }
}

/// Appends the escaped form of `s` to `out`.
fn push_escaped(out: &mut Vec<char>, s: &str)
    ensures
        final(out)@ == old(out)@ + escaped(s@),
{
    let n = s.unicode_len();
    let mut i: usize = 0;
    proof {
        assert(s@.take(0) =~= Seq::<char>::empty());
        assert(out@ + escaped(s@.take(0)) =~= out@);
    }
    while i < n
        invariant
            i <= n,
            n == s@.len(),
            out@ == old(out)@ + escaped(s@.take(i as int)),
        decreases n - i,
    {
        let c = s.get_char(i);
        if c == '"' || c == '\\' {
            out.push('\\');
            out.push(c);
        } else {
            out.push(c);
        }
        proof {
            assert(s@.take(i + 1 as int) =~= s@.take(i as int).push(c));
            lemma_escaped_push(s@.take(i as int), c);
            assert(out@ =~= old(out)@ + escaped(s@.take(i + 1 as int)));
        }
        i = i + 1;
    }
    proof {
        assert(s@.take(n as int) =~= s@);
    }
}

/// Encodes an entry sequence as the canonical text of the store.
pub fn encode(entries: &Vec<(String, String)>) -> (r: Vec<char>)
    ensures
        r@ == spec_encode(entry_views(entries@)),
{
    let mut out: Vec<char> = Vec::new();
    out.push('{');
    out.push('"');
    out.push('p');
    out.push('a');
    out.push('s');
    out.push('s');
    out.push('w');
    out.push('o');
    out.push('r');
    out.push('d');
    out.push('s');
    out.push('"');
    out.push(':');
    out.push('{');
    proof {
        assert(out@ =~= header());
        assert(entry_views(entries@.take(0)) =~= Seq::<(Seq<char>, Seq<char>)>::empty());
        assert(out@ =~= header() + encoded_entries(entry_views(entries@.take(0))));
    }
    let mut idx: usize = 0;
    while idx < entries.len()
        invariant
            idx <= entries@.len(),
            out@ == header() + encoded_entries(entry_views(entries@.take(idx as int))),
        decreases entries@.len() - idx,
    {
        if idx > 0 {
            out.push(',');
        }
        out.push('"');
        push_escaped(&mut out, entries[idx].0.as_str());
        out.push('"');
        out.push(':');
        out.push('"');
        push_escaped(&mut out, entries[idx].1.as_str());
        out.push('"');
        proof {
            let pre = entry_views(entries@.take(idx as int));
            let k = entries@[idx as int].0@;
            let v = entries@[idx as int].1@;
            lemma_encoded_entries_push(pre, k, v);
            assert(entry_views(entries@.take(idx + 1 as int)) =~= pre.push((k, v)));
            if idx == 0 {
                assert(pre.len() == 0);
                assert(out@ =~= header() + encoded_entry(k, v));
            } else {
                assert(pre.len() > 0);
                assert(out@ =~= header() + (encoded_entries(pre) + seq![','] + encoded_entry(
                    k,
                    v,
                )));
            }
        }
        idx = idx + 1;
    }
    out.push('}');
    out.push('}');
    proof {
        assert(entries@.take(entries@.len() as int) =~= entries@);
        assert(out@ =~= spec_encode(entry_views(entries@)));
    }
    out
}

/// A parse result with already-consumed characters put back in front.
pub open spec fn opt_prepend(pre: Seq<char>, o: Option<(Seq<char>, Seq<char>)>) -> Option<
    (Seq<char>, Seq<char>),
> {
    match o {
        Some(p) => Some((pre + p.0, p.1)),
        None => None,
    }
}

/// A parsed entry list with already-parsed entries put back in front.
pub open spec fn opt_prepend_entries(
    pre: Seq<(Seq<char>, Seq<char>)>,
    o: Option<Seq<(Seq<char>, Seq<char>)>>,
) -> Option<Seq<(Seq<char>, Seq<char>)>> {
    match o {
        Some(es) => Some(pre + es),
        None => None,
    }
}

/// Parses the quoted string whose opening quote sits just before `start`:
/// its characters, and the position after its closing quote.
fn parse_string_at(cs: &Vec<char>, start: usize) -> (r: Option<(Vec<char>, usize)>)
    requires
        start <= cs@.len(),
    ensures
        match parse_string(cs@.skip(start as int)) {
            Some(p) => r matches Some(q) && q.0@ == p.0 && start < q.1 <= cs@.len() && cs@.skip(
                q.1 as int,
            ) == p.1,
            None => r is None,
        },
{
    let mut j: usize = start;
    let mut out: Vec<char> = Vec::new();
    proof {
        match parse_string(cs@.skip(start as int)) {
            Some(p) => {
                assert(Seq::<char>::empty() + p.0 =~= p.0);
            },
            None => {},
        }
    }
    while j < cs.len()
        invariant
            start <= j <= cs@.len(),
            parse_string(cs@.skip(start as int)) == opt_prepend(
                out@,
                parse_string(cs@.skip(j as int)),
            ),
        decreases cs@.len() - j,
    {
        let c = cs[j];
        proof {
            assert(cs@.skip(j as int)[0] == cs@[j as int]);
        }
        if c == '"' {
            proof {
                assert(cs@.skip(j as int).drop_first() =~= cs@.skip(j + 1 as int));
                assert(out@ + Seq::<char>::empty() =~= out@);
            }
            return Some((out, j + 1));
        } else if c == '\\' {
            if j + 1 >= cs.len() {
                proof {
                    assert(cs@.skip(j as int).len() < 2);
                }
                return None;
            }
            let d = cs[j + 1];
            proof {
                assert(cs@.skip(j as int)[1] == cs@[j + 1 as int]);
            }
            if d == '"' || d == '\\' {
                proof {
                    assert(cs@.skip(j as int).skip(2) =~= cs@.skip(j + 2 as int));
                    match parse_string(cs@.skip(j + 2 as int)) {
                        Some(p) => {
                            assert(out@ + (seq![d] + p.0) =~= out@.push(d) + p.0);
                        },
                        None => {},
                    }
                }
                out.push(d);
                j = j + 2;
            } else {
                return None;
            }
        } else {
            proof {
                assert(cs@.skip(j as int).drop_first() =~= cs@.skip(j + 1 as int));
                match parse_string(cs@.skip(j + 1 as int)) {
                    Some(p) => {
                        assert(out@ + (seq![c] + p.0) =~= out@.push(c) + p.0);
                    },
                    None => {},
                }
            }
            out.push(c);
            j = j + 1;
        }
    }
    proof {
        assert(cs@.skip(j as int).len() == 0);
    }
    None
}

/// Decodes the canonical text of a store back into owned entries; rejects
/// every other input.
pub fn decode(cs: &Vec<char>) -> (r: Option<Vec<(String, String)>>)
    ensures
        match spec_decode(cs@) {
            Some(es) => r matches Some(out) && entry_views(out@) == es,
            None => r is None,
        },
{
    if cs.len() < 16 {
        return None;
    }
    let hd = ['{', '"', 'p', 'a', 's', 's', 'w', 'o', 'r', 'd', 's', '"', ':', '{'];
    let mut i: usize = 0;
    while i < 14
        invariant
            i <= 14,
            cs@.len() >= 16,
            hd@ == header(),
            forall|t: int| 0 <= t < i ==> cs@[t] == header()[t],
        decreases 14 - i,
    {
        if cs[i] != hd[i] {
            proof {
                assert(cs@.subrange(0, 14)[i as int] == cs@[i as int]);
                assert(cs@.subrange(0, 14) != header());
            }
            return None;
        }
        i = i + 1;
    }
    proof {
        assert(cs@.subrange(0, 14) =~= header());
    }
    if cs.len() == 16 && cs[14] == '}' && cs[15] == '}' {
        proof {
            assert(cs@.skip(14)[0] == cs@[14]);
            assert(cs@.skip(14)[1] == cs@[15]);
            assert(cs@.skip(14) =~= footer());
        }
        let empty_entries: Vec<(String, String)> = Vec::new();
        proof {
            assert(entry_views(empty_entries@) =~= Seq::<(Seq<char>, Seq<char>)>::empty());
        }
        return Some(empty_entries);
    }
    proof {
        if cs@.len() == 16 {
            assert(cs@.skip(14)[0] == cs@[14] && cs@.skip(14)[1] == cs@[15]);
            assert(footer()[0] == '}' && footer()[1] == '}');
            assert(cs@.skip(14) != footer());
        } else {
            assert(cs@.skip(14).len() != footer().len());
        }
    }
    let mut acc: Vec<(String, String)> = Vec::new();
    let mut p: usize = 14;
    proof {
        match parse_entries(cs@.skip(14)) {
            Some(es) => {
                assert(entry_views(acc@) + es =~= es);
            },
            None => {},
        }
    }
    while p < cs.len()
        invariant
            14 <= p <= cs@.len(),
            spec_decode(cs@) == opt_prepend_entries(
                entry_views(acc@),
                parse_entries(cs@.skip(p as int)),
            ),
        decreases cs@.len() - p,
    {
        proof {
            assert(cs@.skip(p as int)[0] == cs@[p as int]);
        }
        if cs[p] != '"' {
            return None;
        }
        proof {
            assert(cs@.skip(p as int).drop_first() =~= cs@.skip(p + 1 as int));
        }
        let ks = parse_string_at(cs, p + 1);
        match ks {
            None => {
                return None;
            },
            Some((kchars, p1)) => {
                proof {
                    if p1 < cs@.len() {
                        assert(cs@.skip(p1 as int)[0] == cs@[p1 as int]);
                    }
                    if p1 + 1 < cs@.len() {
                        assert(cs@.skip(p1 as int)[1] == cs@[p1 + 1 as int]);
                    }
                }
                if cs.len() - p1 < 2 {
                    proof {
                        assert(cs@.skip(p1 as int).len() < 2);
                    }
                    return None;
                }
                if cs[p1] != ':' || cs[p1 + 1] != '"' {
                    return None;
                }
                proof {
                    assert(cs@.skip(p1 as int).skip(2) =~= cs@.skip(p1 + 2 as int));
                }
                let vs = parse_string_at(cs, p1 + 2);
                match vs {
                    None => {
                        return None;
                    },
                    Some((vchars, p2)) => {
                        let kstr = crate::crypto::chars_to_string(&kchars);
                        let vstr = crate::crypto::chars_to_string(&vchars);
                        if cs.len() - p2 == 2 && cs[p2] == '}' && cs[p2 + 1] == '}' {
                            proof {
                                assert(cs@.skip(p2 as int)[0] == cs@[p2 as int]);
                                assert(cs@.skip(p2 as int)[1] == cs@[p2 + 1 as int]);
                                assert(cs@.skip(p2 as int) =~= footer());
                                assert(entry_views(acc@) + seq![(kchars@, vchars@)] =~= entry_views(
                                    acc@.push((kstr, vstr)),
                                ));
                            }
                            acc.push((kstr, vstr));
                            return Some(acc);
                        } else if p2 < cs.len() && cs[p2] == ',' {
                            proof {
                                assert(cs@.skip(p2 as int)[0] == cs@[p2 as int]);
                                assert(footer()[0] == '}');
                                assert(cs@.skip(p2 as int) != footer());
                                assert(cs@.skip(p2 as int).drop_first() =~= cs@.skip(
                                    p2 + 1 as int,
                                ));
                                match parse_entries(cs@.skip(p2 + 1 as int)) {
                                    Some(more) => {
                                        assert(entry_views(acc@) + (seq![(kchars@, vchars@)]
                                            + more) =~= entry_views(acc@.push((kstr, vstr)))
                                            + more);
                                    },
                                    None => {},
                                }
                            }
                            acc.push((kstr, vstr));
                            p = p2 + 1;
                        } else {
                            proof {
                                if cs@.len() - p2 == 2 {
                                    assert(cs@.skip(p2 as int)[0] == cs@[p2 as int]);
                                    assert(cs@.skip(p2 as int)[1] == cs@[p2 + 1 as int]);
                                    assert(cs@.skip(p2 as int) != footer());
                                } else {
                                    assert(cs@.skip(p2 as int).len() != footer().len());
                                }
                                if p2 < cs@.len() {
                                    assert(cs@.skip(p2 as int)[0] == cs@[p2 as int]);
                                }
                            }
                            return None;
                        }
                    },
                }
            },
        }
    }
    proof {
        assert(cs@.skip(p as int).len() == 0);
    }
    None
}

} // verus!

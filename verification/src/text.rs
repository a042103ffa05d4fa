//! Splitting and joining of character sequences.
//!
//! The descriptor format is line- and separator-oriented: the file text is a
//! sequence of lines, a field line is `key=value`, and the `MimeType` value
//! is a `;`-separated token list. This module gives the mathematical model of
//! those shapes (`split_on`, `join_with`, `spec_lines`, `drop_empty`,
//! `has_prefix`), the lemmas that relate splitting and joining, and the
//! executable string helpers proved against the model.
use vstd::prelude::*;
use vstd::string::{StrSliceExecFns, StringExecFns};

verus! {

/// Split `s` at every occurrence of `sep`; `cur` is the piece accumulated so
/// far. The result always holds at least one piece, and splitting the empty
/// sequence yields one empty piece.
pub open spec fn split_on_acc(s: Seq<char>, sep: char, cur: Seq<char>) -> Seq<Seq<char>>
    decreases s.len(),
{
    if s.len() == 0 {
        seq![cur]
    } else if s[0] == sep {
        seq![cur] + split_on_acc(s.drop_first(), sep, Seq::empty())
    } else {
        split_on_acc(s.drop_first(), sep, cur.push(s[0]))
    }
}

/// The pieces of `s` between occurrences of `sep`.
pub open spec fn split_on(s: Seq<char>, sep: char) -> Seq<Seq<char>> {
    split_on_acc(s, sep, Seq::empty())
}

/// The pieces interleaved with single occurrences of `sep`.
pub open spec fn join_with(parts: Seq<Seq<char>>, sep: char) -> Seq<char>
    decreases parts.len(),
{
    if parts.len() == 0 {
        Seq::empty()
    } else if parts.len() == 1 {
        parts[0]
    } else {
        parts[0] + seq![sep] + join_with(parts.drop_first(), sep)
    }
}

/// The pieces with the empty ones removed, order kept.
pub open spec fn drop_empty(parts: Seq<Seq<char>>) -> Seq<Seq<char>>
    decreases parts.len(),
{
    if parts.len() == 0 {
        Seq::empty()
    } else if parts[0].len() == 0 {
        drop_empty(parts.drop_first())
    } else {
        seq![parts[0]] + drop_empty(parts.drop_first())
    }
}

/// `p` is an initial segment of `s`.
pub open spec fn has_prefix(s: Seq<char>, p: Seq<char>) -> bool {
    s.len() >= p.len() && s.subrange(0, p.len() as int) == p
}

/// A line with a trailing carriage return loses it.
pub open spec fn strip_cr(l: Seq<char>) -> Seq<char> {
    if l.len() > 0 && l.last() == '\r' {
        l.drop_last()
    } else {
        l
    }
}

/// The lines of `s`, as `str::lines` yields them: pieces between `'\n'`
/// characters, a final empty piece dropped, and a `'\r'` stripped from the
/// end of every piece that was closed by a `'\n'`.
pub open spec fn spec_lines(s: Seq<char>) -> Seq<Seq<char>> {
    if s.len() == 0 {
        Seq::empty()
    } else {
        let parts = split_on(s, '\n');
        if parts.last().len() == 0 {
            parts.drop_last().map_values(|l: Seq<char>| strip_cr(l))
        } else {
            parts.subrange(0, parts.len() - 1).map_values(|l: Seq<char>| strip_cr(l)).push(
                parts.last(),
            )
        }
    }
}

/// Splitting always yields at least one piece.
pub proof fn lemma_split_acc_len(s: Seq<char>, sep: char, cur: Seq<char>)
    ensures
        split_on_acc(s, sep, cur).len() >= 1,
    decreases s.len(),
{
    if s.len() == 0 {
    } else if s[0] == sep {
        lemma_split_acc_len(s.drop_first(), sep, Seq::empty());
    } else {
        lemma_split_acc_len(s.drop_first(), sep, cur.push(s[0]));
    }
}

/// Joining the pieces of a split restores the input (after the accumulated
/// piece).
pub proof fn lemma_join_split_acc(s: Seq<char>, sep: char, cur: Seq<char>)
    ensures
        join_with(split_on_acc(s, sep, cur), sep) == cur + s,
    decreases s.len(),
{
    if s.len() == 0 {
        assert(cur + s =~= cur);
    } else if s[0] == sep {
        let rest = split_on_acc(s.drop_first(), sep, Seq::empty());
        lemma_split_acc_len(s.drop_first(), sep, Seq::empty());
        lemma_join_split_acc(s.drop_first(), sep, Seq::empty());
        let parts = seq![cur] + rest;
        assert(parts.drop_first() =~= rest);
        assert(join_with(rest, sep) =~= s.drop_first());
        assert(cur + seq![sep] + s.drop_first() =~= cur + s);
    } else {
        lemma_join_split_acc(s.drop_first(), sep, cur.push(s[0]));
        assert(cur.push(s[0]) + s.drop_first() =~= cur + s);
    }
}

/// Joining the pieces of a split restores the input.
pub proof fn lemma_join_split(s: Seq<char>, sep: char)
    ensures
        join_with(split_on(s, sep), sep) == s,
{
    lemma_join_split_acc(s, sep, Seq::empty());
    assert(Seq::empty() + s =~= s);
}

/// No piece of a split contains the separator.
pub proof fn lemma_split_acc_no_sep(s: Seq<char>, sep: char, cur: Seq<char>)
    requires
        !cur.contains(sep),
    ensures
        forall|i: int|
            0 <= i < split_on_acc(s, sep, cur).len() ==> !(#[trigger] split_on_acc(
                s,
                sep,
                cur,
            )[i]).contains(sep),
    decreases s.len(),
{
    if s.len() == 0 {
    } else if s[0] == sep {
        lemma_split_acc_no_sep(s.drop_first(), sep, Seq::empty());
        let rest = split_on_acc(s.drop_first(), sep, Seq::empty());
        let parts = split_on_acc(s, sep, cur);
        assert(parts == seq![cur] + rest);
        assert forall|i: int| 0 <= i < parts.len() implies !(#[trigger] parts[i]).contains(
            sep,
        ) by {
            if i > 0 {
                assert(parts[i] == rest[i - 1]);
                assert(!rest[i - 1].contains(sep));
            }
        }
    } else {
        assert(!cur.push(s[0]).contains(sep)) by {
            assert(forall|j: int|
                0 <= j < cur.push(s[0]).len() ==> cur.push(s[0])[j] != sep) by {
                assert(forall|j: int| 0 <= j < cur.len() ==> cur[j] != sep);
            }
        }
        lemma_split_acc_no_sep(s.drop_first(), sep, cur.push(s[0]));
        let rest = split_on_acc(s.drop_first(), sep, cur.push(s[0]));
        let parts = split_on_acc(s, sep, cur);
        assert(parts == rest);
        assert forall|i: int| 0 <= i < parts.len() implies !(#[trigger] parts[i]).contains(
            sep,
        ) by {
            assert(parts[i] == rest[i]);
            assert(!rest[i].contains(sep));
        }
    }
}

/// Consuming a separator-free prefix only grows the accumulated piece.
pub proof fn lemma_split_acc_append(p: Seq<char>, s: Seq<char>, sep: char, cur: Seq<char>)
    requires
        !p.contains(sep),
    ensures
        split_on_acc(p + s, sep, cur) == split_on_acc(s, sep, cur + p),
    decreases p.len(),
{
    if p.len() == 0 {
        assert(p + s =~= s);
        assert(cur + p =~= cur);
    } else {
        assert((p + s)[0] == p[0]);
        assert(p.contains(p[0]));
        assert((p + s).drop_first() =~= p.drop_first() + s);
        assert(!p.drop_first().contains(sep)) by {
            assert(forall|j: int|
                0 <= j < p.drop_first().len() ==> p.drop_first()[j] == p[j + 1]);
        }
        lemma_split_acc_append(p.drop_first(), s, sep, cur.push(p[0]));
        assert(cur.push(p[0]) + p.drop_first() =~= cur + p);
    }
}

/// Splitting a join restores the pieces, provided none contains the
/// separator.
pub proof fn lemma_split_join(parts: Seq<Seq<char>>, sep: char)
    requires
        parts.len() >= 1,
        forall|i: int| 0 <= i < parts.len() ==> !(#[trigger] parts[i]).contains(sep),
    ensures
        split_on(join_with(parts, sep), sep) == parts,
    decreases parts.len(),
{
    if parts.len() == 1 {
        assert(parts[0] + Seq::<char>::empty() =~= parts[0]);
        lemma_split_acc_append(parts[0], Seq::empty(), sep, Seq::empty());
        assert(Seq::<char>::empty() + parts[0] =~= parts[0]);
        assert(split_on(join_with(parts, sep), sep) =~= parts);
    } else {
        let rest = parts.drop_first();
        assert(forall|i: int|
            0 <= i < rest.len() ==> !(#[trigger] rest[i]).contains(sep)) by {
            assert(forall|i: int| 0 <= i < rest.len() ==> rest[i] == parts[i + 1]);
        }
        lemma_split_join(rest, sep);
        let jr = join_with(rest, sep);
        assert(join_with(parts, sep) == parts[0] + seq![sep] + jr);
        assert(parts[0] + seq![sep] + jr =~= parts[0] + (seq![sep] + jr));
        lemma_split_acc_append(parts[0], seq![sep] + jr, sep, Seq::empty());
        assert(Seq::<char>::empty() + parts[0] =~= parts[0]);
        let t = seq![sep] + jr;
        assert(t[0] == sep);
        assert(t.drop_first() =~= jr);
        assert(split_on_acc(t, sep, parts[0]) == seq![parts[0]] + split_on(jr, sep));
        assert(seq![parts[0]] + rest =~= parts);
    }
}

/// A text free of the separator splits into itself alone.
pub proof fn lemma_split_single(s: Seq<char>, sep: char)
    requires
        !s.contains(sep),
    ensures
        split_on(s, sep) == seq![s],
{
    lemma_split_acc_append(s, Seq::empty(), sep, Seq::empty());
    assert(s + Seq::<char>::empty() =~= s);
    assert(Seq::<char>::empty() + s =~= s);
    assert(split_on_acc(Seq::<char>::empty(), sep, s) == seq![s]);
}

/// Appending a piece to a non-empty join appends a separator and the piece.
pub proof fn lemma_join_push(parts: Seq<Seq<char>>, sep: char, p: Seq<char>)
    requires
        parts.len() >= 1,
    ensures
        join_with(parts.push(p), sep) == join_with(parts, sep) + seq![sep] + p,
    decreases parts.len(),
{
    if parts.len() == 1 {
        assert(parts.push(p).drop_first() =~= seq![p]);
        assert(parts.push(p)[0] == parts[0]);
        assert(join_with(seq![p], sep) == p);
        assert(join_with(parts, sep) == parts[0]);
        assert(join_with(parts.push(p), sep) == parts.push(p)[0] + seq![sep] + join_with(
            parts.push(p).drop_first(),
            sep,
        ));
    } else {
        lemma_join_push(parts.drop_first(), sep, p);
        assert(parts.push(p).drop_first() =~= parts.drop_first().push(p));
        assert(parts.push(p)[0] == parts[0]);
        assert(parts[0] + seq![sep] + (join_with(parts.drop_first(), sep) + seq![sep] + p) =~= (
        parts[0] + seq![sep] + join_with(parts.drop_first(), sep)) + seq![sep] + p);
    }
}

/// When the input does not end with the separator, the final piece of the
/// split is non-empty.
pub proof fn lemma_split_acc_last(s: Seq<char>, sep: char, cur: Seq<char>)
    requires
        s.len() > 0,
        s.last() != sep,
    ensures
        split_on_acc(s, sep, cur).last().len() > 0,
    decreases s.len(),
{
    if s[0] == sep {
        let rest = split_on_acc(s.drop_first(), sep, Seq::empty());
        lemma_split_acc_len(s.drop_first(), sep, Seq::empty());
        assert(s.drop_first().len() > 0);
        assert(s.drop_first().last() == s.last());
        lemma_split_acc_last(s.drop_first(), sep, Seq::empty());
        assert((seq![cur] + rest).last() == rest.last());
    } else {
        if s.len() == 1 {
            assert(s.drop_first().len() == 0);
            assert(split_on_acc(s.drop_first(), sep, cur.push(s[0])) == seq![cur.push(s[0])]);
            assert(split_on_acc(s, sep, cur) == seq![cur.push(s[0])]);
        } else {
            assert(s.drop_first().last() == s.last());
            lemma_split_acc_last(s.drop_first(), sep, cur.push(s[0]));
        }
    }
}

/// Dropping empty pieces distributes over concatenation.
pub proof fn lemma_drop_empty_concat(a: Seq<Seq<char>>, b: Seq<Seq<char>>)
    ensures
        drop_empty(a + b) == drop_empty(a) + drop_empty(b),
    decreases a.len(),
{
    if a.len() == 0 {
        assert(a + b =~= b);
        assert(drop_empty(a) + drop_empty(b) =~= drop_empty(b));
    } else {
        assert((a + b).drop_first() =~= a.drop_first() + b);
        assert((a + b)[0] == a[0]);
        lemma_drop_empty_concat(a.drop_first(), b);
        if a[0].len() == 0 {
        } else {
            assert(seq![a[0]] + (drop_empty(a.drop_first()) + drop_empty(b)) =~= (seq![a[0]]
                + drop_empty(a.drop_first())) + drop_empty(b));
        }
    }
}

/// Dropping empty pieces from all-non-empty pieces changes nothing.
pub proof fn lemma_drop_empty_id(parts: Seq<Seq<char>>)
    requires
        forall|i: int| 0 <= i < parts.len() ==> (#[trigger] parts[i]).len() > 0,
    ensures
        drop_empty(parts) == parts,
    decreases parts.len(),
{
    if parts.len() == 0 {
        assert(drop_empty(parts) =~= parts);
    } else {
        assert(forall|i: int|
            0 <= i < parts.drop_first().len() ==> (#[trigger] parts.drop_first()[i]).len()
                > 0) by {
            assert(forall|i: int|
                0 <= i < parts.drop_first().len() ==> parts.drop_first()[i] == parts[i + 1]);
        }
        lemma_drop_empty_id(parts.drop_first());
        assert(seq![parts[0]] + parts.drop_first() =~= parts);
    }
}

/// Every piece kept by `drop_empty` is non-empty and occurs in the input.
pub proof fn lemma_drop_empty_parts(parts: Seq<Seq<char>>)
    ensures
        forall|i: int|
            0 <= i < drop_empty(parts).len() ==> (#[trigger] drop_empty(parts)[i]).len() > 0
                && parts.contains(drop_empty(parts)[i]),
    decreases parts.len(),
{
    if parts.len() == 0 {
    } else {
        lemma_drop_empty_parts(parts.drop_first());
        let r = drop_empty(parts);
        let rr = drop_empty(parts.drop_first());
        assert forall|i: int| 0 <= i < r.len() implies (#[trigger] r[i]).len() > 0
            && parts.contains(r[i]) by {
            if parts[0].len() == 0 {
                assert(r[i] == rr[i]);
                let j = choose|j: int|
                    0 <= j < parts.drop_first().len() && parts.drop_first()[j] == rr[i];
                assert(parts[j + 1] == rr[i]);
            } else {
                if i == 0 {
                    assert(r[0] == parts[0]);
                    assert(parts.contains(parts[0]));
                } else {
                    assert(r[i] == rr[i - 1]);
                    let j = choose|j: int|
                        0 <= j < parts.drop_first().len() && parts.drop_first()[j] == rr[i - 1];
                    assert(parts[j + 1] == rr[i - 1]);
                }
            }
        }
    }
}

/// A character of a piece is a character of the whole concatenation.
pub proof fn lemma_concat_contains(a: Seq<char>, b: Seq<char>, c: char)
    ensures
        (a + b).contains(c) <==> a.contains(c) || b.contains(c),
{
    if a.contains(c) {
        let i = choose|i: int| 0 <= i < a.len() && a[i] == c;
        assert((a + b)[i] == c);
    }
    if b.contains(c) {
        let i = choose|i: int| 0 <= i < b.len() && b[i] == c;
        assert((a + b)[a.len() + i] == c);
    }
    if (a + b).contains(c) {
        let i = choose|i: int| 0 <= i < (a + b).len() && (a + b)[i] == c;
        if i < a.len() {
            assert(a[i] == c);
        } else {
            assert(b[i - a.len()] == c);
        }
    }
}

/// A character of a joined text is the separator or a character of some
/// piece.
pub proof fn lemma_join_contains(parts: Seq<Seq<char>>, sep: char, c: char)
    ensures
        join_with(parts, sep).contains(c) <==> (c == sep && parts.len() >= 2) || exists|i: int|
            0 <= i < parts.len() && (#[trigger] parts[i]).contains(c),
    decreases parts.len(),
{
    if parts.len() == 0 {
    } else if parts.len() == 1 {
        assert(join_with(parts, sep) == parts[0]);
    } else {
        let rest = parts.drop_first();
        lemma_join_contains(rest, sep, c);
        lemma_concat_contains(parts[0] + seq![sep], join_with(rest, sep), c);
        lemma_concat_contains(parts[0], seq![sep], c);
        assert(seq![sep].contains(c) <==> c == sep) by {
            if c == sep {
                assert(seq![sep][0] == c);
            }
        }
        assert(forall|i: int| 0 <= i < rest.len() ==> rest[i] == parts[i + 1]);
        if exists|i: int| 0 <= i < parts.len() && (#[trigger] parts[i]).contains(c) {
            let i = choose|i: int| 0 <= i < parts.len() && (#[trigger] parts[i]).contains(c);
            if i > 0 {
                assert(rest[i - 1].contains(c));
            }
        }
        if exists|i: int| 0 <= i < rest.len() && (#[trigger] rest[i]).contains(c) {
            let i = choose|i: int| 0 <= i < rest.len() && (#[trigger] rest[i]).contains(c);
            assert(parts[i + 1].contains(c));
        }
    }
}

/// Stripping a trailing carriage return adds no character.
pub proof fn lemma_strip_cr_contains(l: Seq<char>, c: char)
    ensures
        strip_cr(l).contains(c) ==> l.contains(c),
{
    if strip_cr(l).contains(c) {
        let i = choose|i: int| 0 <= i < strip_cr(l).len() && strip_cr(l)[i] == c;
        assert(l[i] == c);
    }
}

/// Character-for-character string equality.
pub fn str_eq(a: &str, b: &str) -> (r: bool)
    ensures
        r == (a@ == b@),
{
    let na = a.unicode_len();
    let nb = b.unicode_len();
    if na != nb {
        return false;
    }
    let mut i: usize = 0;
    while i < na
        invariant
            0 <= i <= na,
            na as nat == a@.len(),
            na as nat == b@.len(),
            forall|j: int| 0 <= j < i ==> a@[j] == b@[j],
        decreases na - i,
    {
        if a.get_char(i) != b.get_char(i) {
            return false;
        }
        i = i + 1;
    }
    proof {
        assert(a@ =~= b@);
    }
    true
}

/// The position of the first `c` at or after `from`, if there is one.
pub fn find_char(s: &str, from: usize, c: char) -> (r: Option<usize>)
    requires
        from as nat <= s@.len(),
    ensures
        r matches Some(i) ==> from <= i && (i as nat) < s@.len() && s@[i as int] == c && forall|
            j: int,
        |
            from <= j < i ==> s@[j] != c,
        r is None ==> forall|j: int| from <= j < s@.len() ==> s@[j] != c,
{
    let n = s.unicode_len();
    let mut i: usize = from;
    while i < n
        invariant
            from <= i <= n,
            n as nat == s@.len(),
            forall|j: int| from <= j < i ==> s@[j] != c,
        decreases n - i,
    {
        if s.get_char(i) == c {
            return Some(i);
        }
        i = i + 1;
    }
    None
}

/// An owned copy of the characters of `s` between `from` and `to`.
pub fn substr(s: &str, from: usize, to: usize) -> (r: String)
    requires
        from <= to,
        to as nat <= s@.len(),
    ensures
        r@ == s@.subrange(from as int, to as int),
{
    s.substring_char(from, to).to_owned()
}

/// Split `s` at every occurrence of `sep`, matching `split_on`.
pub fn split_str(s: &str, sep: char) -> (parts: Vec<String>)
    ensures
        parts.deep_view() == split_on(s@, sep),
{
    let n = s.unicode_len();
    let mut parts: Vec<String> = Vec::new();
    let mut start: usize = 0;
    proof {
        assert(s@.skip(0) =~= s@);
        assert(parts.deep_view() =~= Seq::<Seq<char>>::empty());
        assert(parts.deep_view() + split_on(s@, sep) =~= split_on(s@, sep));
    }
    loop
        invariant
            start <= n,
            n as nat == s@.len(),
            split_on(s@, sep) == parts.deep_view() + split_on(s@.skip(start as int), sep),
        decreases n - start,
    {
        match find_char(s, start, sep) {
            Some(i) => {
                let piece = substr(s, start, i);
                proof {
                    let t = s@.skip(start as int);
                    let rest = seq![sep] + s@.skip(i + 1);
                    assert(t =~= piece@ + rest);
                    assert(!piece@.contains(sep)) by {
                        assert(forall|j: int|
                            0 <= j < piece@.len() ==> piece@[j] == s@[start + j]);
                    }
                    lemma_split_acc_append(piece@, rest, sep, Seq::empty());
                    assert(Seq::<char>::empty() + piece@ =~= piece@);
                    assert(rest[0] == sep);
                    assert(rest.drop_first() =~= s@.skip(i + 1));
                    assert(split_on(t, sep) == seq![piece@] + split_on(s@.skip(i + 1), sep));
                    assert(parts.deep_view().push(piece@) + split_on(s@.skip(i + 1), sep)
                        =~= parts.deep_view() + (seq![piece@] + split_on(s@.skip(i + 1), sep)));
                }
                parts.push(piece);
                proof {
                    assert(parts.deep_view() =~= parts@.drop_last().map_values(
                        |x: String| x.deep_view(),
                    ).push(parts@.last()@)) by {
                        assert(forall|j: int|
                            0 <= j < parts@.len() ==> parts.deep_view()[j] == parts@[j]@);
                    }
                }
                start = i + 1;
            },
            None => {
                let piece = substr(s, start, n);
                proof {
                    let t = s@.skip(start as int);
                    assert(piece@ =~= t);
                    assert(!t.contains(sep)) by {
                        assert(forall|j: int| 0 <= j < t.len() ==> t[j] == s@[start + j]);
                    }
                    lemma_split_acc_append(t, Seq::empty(), sep, Seq::empty());
                    assert(t + Seq::<char>::empty() =~= t);
                    assert(Seq::<char>::empty() + t =~= t);
                    assert(split_on(t, sep) == seq![t]);
                }
                parts.push(piece);
                proof {
                    assert(parts.deep_view() =~= parts@.drop_last().map_values(
                        |x: String| x.deep_view(),
                    ).push(parts@.last()@)) by {
                        assert(forall|j: int|
                            0 <= j < parts@.len() ==> parts.deep_view()[j] == parts@[j]@);
                    }
                    assert(parts.deep_view() =~= split_on(s@, sep));
                }
                return parts;
            },
        }
    }
}

/// Join the pieces with a one-character separator, matching `join_with`.
pub fn join_strs(parts: &Vec<String>, sep: &str) -> (r: String)
    requires
        sep@.len() == 1,
    ensures
        r@ == join_with(parts.deep_view(), sep@[0]),
{
    let mut r = String::new();
    let n = parts.len();
    let mut i: usize = 0;
    while i < n
        invariant
            0 <= i <= n,
            n == parts@.len(),
            sep@.len() == 1,
            r@ == join_with(parts.deep_view().take(i as int), sep@[0]),
        decreases n - i,
    {
        let ghost dv = parts.deep_view();
        let ghost c = sep@[0];
        if i > 0 {
            r.append(sep);
        }
        r.append(parts[i].as_str());
        proof {
            assert(dv.take(i + 1) =~= dv.take(i as int).push(dv[i as int]));
            assert(dv[i as int] == parts@[i as int]@);
            if i == 0 {
                assert(dv.take(1) =~= seq![dv[0]]);
                assert(join_with(seq![dv[0]], c) == dv[0]);
                assert(join_with(dv.take(0), c) == Seq::<char>::empty());
                assert(Seq::<char>::empty() + dv[0] =~= dv[0]);
            } else {
                lemma_join_push(dv.take(i as int), c, dv[i as int]);
                assert(sep@ =~= seq![c]);
                assert(join_with(dv.take(i as int), c) + sep@ + parts@[i as int]@ =~= join_with(
                    dv.take(i as int),
                    c,
                ) + seq![c] + dv[i as int]);
            }
        }
        i = i + 1;
    }
    proof {
        assert(parts.deep_view().take(n as int) =~= parts.deep_view());
    }
    r
}

/// `s` begins with `prefix`.
pub fn str_starts_with(s: &str, prefix: &str) -> (r: bool)
    ensures
        r == has_prefix(s@, prefix@),
{
    let n = s.unicode_len();
    let np = prefix.unicode_len();
    if np > n {
        return false;
    }
    let mut i: usize = 0;
    while i < np
        invariant
            0 <= i <= np,
            np as nat == prefix@.len(),
            n as nat == s@.len(),
            np <= n,
            forall|j: int| 0 <= j < i ==> s@[j] == prefix@[j],
        decreases np - i,
    {
        if s.get_char(i) != prefix.get_char(i) {
            proof {
                assert(s@.subrange(0, np as int)[i as int] == s@[i as int]);
            }
            return false;
        }
        i = i + 1;
    }
    proof {
        assert(s@.subrange(0, np as int) =~= prefix@);
    }
    true
}

/// A copy of `l` with a trailing carriage return removed, matching
/// `strip_cr`.
pub fn strip_trailing_cr(l: &str) -> (r: String)
    ensures
        r@ == strip_cr(l@),
{
    let n = l.unicode_len();
    if n > 0 && l.get_char(n - 1) == '\r' {
        proof {
            assert(l@.subrange(0, n - 1) =~= l@.drop_last());
        }
        substr(l, 0, n - 1)
    } else {
        l.to_owned()
    }
}

/// The lines of `s`, matching `spec_lines`.
pub fn split_lines(s: &str) -> (ls: Vec<String>)
    ensures
        ls.deep_view() == spec_lines(s@),
{
    let n = s.unicode_len();
    if n == 0 {
        let v: Vec<String> = Vec::new();
        proof {
            assert(v.deep_view() =~= spec_lines(s@));
        }
        return v;
    }
    let mut parts = split_str(s, '\n');
    let ghost orig = split_on(s@, '\n');
    proof {
        lemma_split_acc_len(s@, '\n', Seq::empty());
        assert(parts@.len() == orig.len());
        assert(forall|j: int| 0 <= j < parts@.len() ==> (#[trigger] parts@[j])@ == orig[j]);
    }
    let m = parts.len();
    let keep_last = !parts[m - 1].as_str().is_empty();
    if !keep_last {
        parts.pop();
    }
    let strip_to: usize = if keep_last {
        parts.len() - 1
    } else {
        parts.len()
    };
    let ghost base = parts.deep_view();
    let mut i: usize = 0;
    while i < strip_to
        invariant
            0 <= i <= strip_to,
            strip_to <= parts@.len(),
            base.len() == parts@.len(),
            forall|j: int| 0 <= j < i ==> (#[trigger] parts@[j])@ == strip_cr(base[j]),
            forall|j: int| i <= j < base.len() ==> (#[trigger] parts@[j])@ == base[j],
        decreases strip_to - i,
    {
        let stripped = strip_trailing_cr(parts[i].as_str());
        parts.set(i, stripped);
        i = i + 1;
    }
    proof {
        assert(forall|j: int|
            0 <= j < parts@.len() ==> parts.deep_view()[j] == (#[trigger] parts@[j])@);
    }
    proof {
        if keep_last {
            assert(parts.deep_view() =~= orig.subrange(0, orig.len() - 1).map_values(
                |l: Seq<char>| strip_cr(l),
            ).push(orig.last()));
        } else {
            assert(parts.deep_view() =~= orig.drop_last().map_values(|l: Seq<char>| strip_cr(l)));
        }
    }
    parts
}

} // verus!

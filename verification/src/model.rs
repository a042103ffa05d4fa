//! The mathematical model of a descriptor: an ordered sequence of key-value
//! fields with insertion-order map semantics, and the specification-level
//! decode, encode and scheme-handler mutations that the executable code is
//! proved against.
use vstd::prelude::*;

use crate::text::{drop_empty, has_prefix, join_with, spec_lines, split_on};
use crate::ParseError;

verus! {

/// The header line that opens every serialized descriptor.
pub open spec fn header_text() -> Seq<char> {
    "[Desktop Entry]"@
}

/// The key of the field holding the `;`-separated MIME-type token list.
pub open spec fn mime_key() -> Seq<char> {
    "MimeType"@
}

/// The key of the field holding the launch command.
pub open spec fn exec_key() -> Seq<char> {
    "Exec"@
}

/// The prefix that marks a MIME token as a URI-scheme handler.
pub open spec fn scheme_prefix() -> Seq<char> {
    "x-scheme-handler/"@
}

/// The index of the first field with key `k`, or `-1` if there is none.
pub open spec fn find_key(es: Seq<(Seq<char>, Seq<char>)>, k: Seq<char>) -> int
    decreases es.len(),
{
    if es.len() == 0 {
        -1
    } else if es[0].0 == k {
        0
    } else {
        let r = find_key(es.drop_first(), k);
        if r < 0 {
            -1
        } else {
            r + 1
        }
    }
}

/// What `find_key` returns: the first index holding `k`, or `-1` when no
/// field holds `k`.
pub proof fn lemma_find_key(es: Seq<(Seq<char>, Seq<char>)>, k: Seq<char>)
    ensures
        find_key(es, k) >= 0 ==> 0 <= find_key(es, k) < es.len() && es[find_key(es, k)].0 == k
            && forall|j: int| 0 <= j < find_key(es, k) ==> (#[trigger] es[j]).0 != k,
        find_key(es, k) < 0 ==> find_key(es, k) == -1 && forall|j: int|
            0 <= j < es.len() ==> (#[trigger] es[j]).0 != k,
    decreases es.len(),
{
    if es.len() == 0 {
    } else if es[0].0 == k {
    } else {
        let es1 = es.drop_first();
        lemma_find_key(es1, k);
        let r = find_key(es1, k);
        if r >= 0 {
            assert(find_key(es, k) == r + 1);
            assert(es[r + 1] == es1[r]);
            assert forall|j: int| 0 <= j < r + 1 implies (#[trigger] es[j]).0 != k by {
                if j > 0 {
                    assert(es[j] == es1[j - 1]);
                }
            }
        } else {
            assert forall|j: int| 0 <= j < es.len() implies (#[trigger] es[j]).0 != k by {
                if j > 0 {
                    assert(es[j] == es1[j - 1]);
                }
            }
        }
    }
}

/// Insert with insertion-order map semantics: an existing key keeps its
/// position and gets the new value; a new key is appended last.
pub open spec fn entries_insert(
    es: Seq<(Seq<char>, Seq<char>)>,
    k: Seq<char>,
    v: Seq<char>,
) -> Seq<(Seq<char>, Seq<char>)> {
    let i = find_key(es, k);
    if i < 0 {
        es.push((k, v))
    } else {
        es.update(i, (k, v))
    }
}

/// No two fields share a key.
pub open spec fn keys_unique(es: Seq<(Seq<char>, Seq<char>)>) -> bool {
    forall|i: int, j: int|
        0 <= i < j < es.len() ==> (#[trigger] es[i]).0 != (#[trigger] es[j]).0
}

/// Inserting preserves key uniqueness.
pub proof fn lemma_entries_insert_unique(
    es: Seq<(Seq<char>, Seq<char>)>,
    k: Seq<char>,
    v: Seq<char>,
)
    requires
        keys_unique(es),
    ensures
        keys_unique(entries_insert(es, k, v)),
{
    lemma_find_key(es, k);
}

/// Removing a field preserves key uniqueness.
pub proof fn lemma_entries_remove_unique(es: Seq<(Seq<char>, Seq<char>)>, i: int)
    requires
        keys_unique(es),
        0 <= i < es.len(),
    ensures
        keys_unique(es.remove(i)),
{
    let r = es.remove(i);
    assert forall|a: int, b: int| 0 <= a < b < r.len() implies (#[trigger] r[a]).0 != (
    #[trigger] r[b]).0 by {
        let a0: int = if a < i {
            a
        } else {
            a + 1
        };
        let b0: int = if b < i {
            b
        } else {
            b + 1
        };
        assert(r[a] == es[a0]);
        assert(r[b] == es[b0]);
    }
}

/// A text with no line break, no carriage return and no `=` sign: one that
/// can sit inside a field line without disturbing the format.
pub open spec fn clean_text(s: Seq<char>) -> bool {
    !s.contains('\n') && !s.contains('\r') && !s.contains('=')
}

/// Every key and value of `es` is clean.
pub open spec fn entries_clean(es: Seq<(Seq<char>, Seq<char>)>) -> bool {
    forall|i: int|
        0 <= i < es.len() ==> clean_text((#[trigger] es[i]).0) && clean_text(es[i].1)
}

/// Parse the field lines after the header, folding each into the entries
/// accumulated so far; the first malformed line aborts the whole parse.
pub open spec fn parse_fields(
    lines: Seq<Seq<char>>,
    acc: Seq<(Seq<char>, Seq<char>)>,
) -> Result<Seq<(Seq<char>, Seq<char>)>, ParseError>
    decreases lines.len(),
{
    if lines.len() == 0 {
        Ok(acc)
    } else {
        let parts = split_on(lines[0], '=');
        if parts.len() != 2 {
            Err(ParseError::InvalidFieldFormat)
        } else {
            parse_fields(lines.drop_first(), entries_insert(acc, parts[0], parts[1]))
        }
    }
}

/// Decode a descriptor text: empty input is an empty descriptor; otherwise
/// the first line must be the header and every further line one `key=value`
/// field.
pub open spec fn spec_decode(s: Seq<char>) -> Result<Seq<(Seq<char>, Seq<char>)>, ParseError> {
    let ls = spec_lines(s);
    if ls.len() == 0 {
        Ok(Seq::empty())
    } else if ls[0] != header_text() {
        Err(ParseError::NotDesktopEntry)
    } else {
        parse_fields(ls.drop_first(), Seq::empty())
    }
}

/// The serialized form of one field.
pub open spec fn field_line(e: (Seq<char>, Seq<char>)) -> Seq<char> {
    e.0 + seq!['='] + e.1
}

/// The serialized forms of all fields, in order.
pub open spec fn field_lines(es: Seq<(Seq<char>, Seq<char>)>) -> Seq<Seq<char>> {
    es.map_values(|e: (Seq<char>, Seq<char>)| field_line(e))
}

/// Encode a descriptor: the header, a line break, and the newline-joined
/// field lines in order.
pub open spec fn spec_encode(es: Seq<(Seq<char>, Seq<char>)>) -> Seq<char> {
    header_text() + seq!['\n'] + join_with(field_lines(es), '\n')
}

/// The MIME tokens of a field value: the `;`-separated pieces, empty ones
/// dropped.
pub open spec fn mime_tokens(v: Seq<char>) -> Seq<Seq<char>> {
    drop_empty(split_on(v, ';'))
}

/// The index of the first token carrying prefix `p`, or `-1` if none does.
pub open spec fn find_prefixed(toks: Seq<Seq<char>>, p: Seq<char>) -> int
    decreases toks.len(),
{
    if toks.len() == 0 {
        -1
    } else if has_prefix(toks[0], p) {
        0
    } else {
        let r = find_prefixed(toks.drop_first(), p);
        if r < 0 {
            -1
        } else {
            r + 1
        }
    }
}

/// What `find_prefixed` returns: the first prefixed token's index, or `-1`
/// when no token is prefixed.
pub proof fn lemma_find_prefixed(toks: Seq<Seq<char>>, p: Seq<char>)
    ensures
        find_prefixed(toks, p) >= 0 ==> 0 <= find_prefixed(toks, p) < toks.len() && has_prefix(
            toks[find_prefixed(toks, p)],
            p,
        ) && forall|j: int| 0 <= j < find_prefixed(toks, p) ==> !has_prefix(#[trigger] toks[j], p),
        find_prefixed(toks, p) < 0 ==> find_prefixed(toks, p) == -1 && forall|j: int|
            0 <= j < toks.len() ==> !has_prefix(#[trigger] toks[j], p),
    decreases toks.len(),
{
    if toks.len() == 0 {
    } else if has_prefix(toks[0], p) {
    } else {
        let ts1 = toks.drop_first();
        lemma_find_prefixed(ts1, p);
        let r = find_prefixed(ts1, p);
        if r >= 0 {
            assert(find_prefixed(toks, p) == r + 1);
            assert(toks[r + 1] == ts1[r]);
            assert forall|j: int| 0 <= j < r + 1 implies !has_prefix(#[trigger] toks[j], p) by {
                if j > 0 {
                    assert(toks[j] == ts1[j - 1]);
                }
            }
        } else {
            assert forall|j: int| 0 <= j < toks.len() implies !has_prefix(
                #[trigger] toks[j],
                p,
            ) by {
                if j > 0 {
                    assert(toks[j] == ts1[j - 1]);
                }
            }
        }
    }
}

/// At most one token of the list carries the scheme-handler prefix.
pub open spec fn at_most_one_handler(toks: Seq<Seq<char>>) -> bool {
    forall|i: int, j: int|
        0 <= i < j < toks.len() && has_prefix(#[trigger] toks[i], scheme_prefix()) ==> !has_prefix(
            #[trigger] toks[j],
            scheme_prefix(),
        )
}

/// Insert a scheme-handler token: create the `MimeType` field if absent;
/// otherwise replace the first prefixed token in place, or append the token
/// when none is prefixed. No other token moves.
pub open spec fn spec_insert_handler(
    es: Seq<(Seq<char>, Seq<char>)>,
    tok: Seq<char>,
) -> Seq<(Seq<char>, Seq<char>)> {
    let i = find_key(es, mime_key());
    if i < 0 {
        entries_insert(es, mime_key(), tok)
    } else {
        let toks = mime_tokens(es[i].1);
        let j = find_prefixed(toks, scheme_prefix());
        let toks2 = if j < 0 {
            toks.push(tok)
        } else {
            toks.update(j, tok)
        };
        entries_insert(es, mime_key(), join_with(toks2, ';'))
    }
}

/// Remove the scheme-handler token: a no-op when the `MimeType` field or the
/// prefixed token is absent; otherwise the token goes, and when it was the
/// last one the whole field goes with it.
pub open spec fn spec_delete_handler(
    es: Seq<(Seq<char>, Seq<char>)>,
) -> Seq<(Seq<char>, Seq<char>)> {
    let i = find_key(es, mime_key());
    if i < 0 {
        es
    } else {
        let toks = mime_tokens(es[i].1);
        let j = find_prefixed(toks, scheme_prefix());
        if j < 0 {
            es
        } else {
            let toks2 = toks.remove(j);
            if toks2.len() > 0 {
                entries_insert(es, mime_key(), join_with(toks2, ';'))
            } else {
                es.remove(i)
            }
        }
    }
}

/// Default the `Exec` field: when absent, the executable path suffixed with
/// the ` %u` argument placeholder is appended; an existing value is kept.
pub open spec fn with_exec_default(
    es: Seq<(Seq<char>, Seq<char>)>,
    exe: Seq<char>,
) -> Seq<(Seq<char>, Seq<char>)> {
    if find_key(es, exec_key()) >= 0 {
        es
    } else {
        entries_insert(es, exec_key(), exe + " %u"@)
    }
}

/// The token registering a handler for `proto` URIs.
pub open spec fn scheme_token(proto: Seq<char>) -> Seq<char> {
    scheme_prefix() + proto
}

/// What registration makes of the current descriptor text: decode, default
/// `Exec`, insert the scheme-handler token, encode.
pub open spec fn spec_register(
    content: Seq<char>,
    exe: Seq<char>,
    proto: Seq<char>,
) -> Result<Seq<char>, ParseError> {
    match spec_decode(content) {
        Ok(es) => Ok(
            spec_encode(spec_insert_handler(with_exec_default(es, exe), scheme_token(proto))),
        ),
        Err(e) => Err(e),
    }
}

/// What unregistration makes of the current descriptor text: decode, default
/// `Exec`, remove the scheme-handler token, encode.
pub open spec fn spec_unregister(content: Seq<char>, exe: Seq<char>) -> Result<
    Seq<char>,
    ParseError,
> {
    match spec_decode(content) {
        Ok(es) => Ok(spec_encode(spec_delete_handler(with_exec_default(es, exe)))),
        Err(e) => Err(e),
    }
}

} // verus!

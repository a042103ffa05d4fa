//! The general laws of the descriptor model.
use vstd::prelude::*;

use crate::model::{
    at_most_one_handler, clean_text, entries_clean, entries_insert, exec_key, field_line,
    field_lines, find_key, find_prefixed, header_text, keys_unique, lemma_entries_insert_unique,
    lemma_find_key, lemma_find_prefixed, mime_key, mime_tokens, parse_fields, scheme_prefix,
    scheme_token, spec_decode, spec_delete_handler, spec_encode, spec_insert_handler,
    spec_register, with_exec_default,
};
use crate::text::{
    has_prefix, join_with, lemma_concat_contains, lemma_drop_empty_id, lemma_drop_empty_parts,
    lemma_join_contains, lemma_join_split, lemma_split_acc_append, lemma_split_acc_last,
    lemma_split_acc_len, lemma_split_acc_no_sep, lemma_split_join, lemma_split_single,
    lemma_strip_cr_contains, spec_lines, split_on, strip_cr,
};
use crate::ParseError;

verus! {

/// The fixed texts of the format hold no line break, carriage return or
/// equals sign, and the scheme-handler prefix no semicolon.
proof fn lemma_literals_clean()
    ensures
        clean_text(header_text()),
        clean_text(scheme_prefix()),
        clean_text(" %u"@),
        !scheme_prefix().contains(';'),
        !header_text().contains(';'),
        header_text().len() > 0,
        scheme_prefix().len() > 0,
{
    reveal_strlit("[Desktop Entry]");
    reveal_strlit("x-scheme-handler/");
    reveal_strlit(" %u");
    assert(clean_text(header_text()) && !header_text().contains(';') && header_text().len() > 0);
    assert(clean_text(scheme_prefix()) && !scheme_prefix().contains(';') && scheme_prefix().len()
        > 0);
    assert(clean_text(" %u"@));
}

/// A clean text never ends in a carriage return, so stripping changes
/// nothing.
proof fn lemma_strip_cr_clean(l: Seq<char>)
    requires
        !l.contains('\r'),
    ensures
        strip_cr(l) == l,
{
    if l.len() > 0 && l.last() == '\r' {
        assert(l.contains('\r'));
    }
}

/// The serialized form of a clean field holds no line break or carriage
/// return, splits at its one `=` sign back into the key and the value, and
/// is never empty.
proof fn lemma_field_line(e: (Seq<char>, Seq<char>))
    requires
        clean_text(e.0),
        clean_text(e.1),
    ensures
        !field_line(e).contains('\n'),
        !field_line(e).contains('\r'),
        field_line(e).len() > 0,
        split_on(field_line(e), '=') == seq![e.0, e.1],
{
    let line = field_line(e);
    lemma_concat_contains(e.0 + seq!['='], e.1, '\n');
    lemma_concat_contains(e.0, seq!['='], '\n');
    lemma_concat_contains(e.0 + seq!['='], e.1, '\r');
    lemma_concat_contains(e.0, seq!['='], '\r');
    assert(!seq!['='].contains('\n') && !seq!['='].contains('\r')) by {
        if seq!['='].contains('\n') {
            let i = choose|i: int| 0 <= i < 1 && seq!['='][i] == '\n';
        }
        if seq!['='].contains('\r') {
            let i = choose|i: int| 0 <= i < 1 && seq!['='][i] == '\r';
        }
    }
    let kv = seq![e.0, e.1];
    assert(join_with(kv, '=') == line) by {
        assert(kv.drop_first() =~= seq![e.1]);
        assert(join_with(seq![e.1], '=') == e.1);
    }
    lemma_split_join(kv, '=');
}

/// Folding field lines into the accumulated entries appends the fields, as
/// long as the keys are fresh and pairwise distinct.
proof fn lemma_parse_field_lines(es: Seq<(Seq<char>, Seq<char>)>, acc: Seq<(Seq<char>, Seq<char>)>)
    requires
        keys_unique(es),
        entries_clean(es),
        forall|a: int, i: int|
            0 <= a < acc.len() && 0 <= i < es.len() ==> (#[trigger] acc[a]).0 != (
            #[trigger] es[i]).0,
    ensures
        parse_fields(field_lines(es), acc) == Ok::<Seq<(Seq<char>, Seq<char>)>, ParseError>(
            acc + es,
        ),
    decreases es.len(),
{
    if es.len() == 0 {
        assert(field_lines(es) =~= Seq::<Seq<char>>::empty());
        assert(acc + es =~= acc);
    } else {
        let e = es[0];
        lemma_field_line(e);
        let fls = field_lines(es);
        assert(fls[0] == field_line(e));
        assert(split_on(fls[0], '=')[0] == e.0 && split_on(fls[0], '=')[1] == e.1);
        lemma_find_key(acc, e.0);
        assert(find_key(acc, e.0) < 0);
        assert(entries_insert(acc, e.0, e.1) == acc.push((e.0, e.1)));
        assert((e.0, e.1) == e);
        let rest = es.drop_first();
        assert(forall|i: int| 0 <= i < rest.len() ==> #[trigger] rest[i] == es[i + 1]);
        assert forall|a: int, i: int|
            0 <= a < acc.push(e).len() && 0 <= i < rest.len() implies (#[trigger] acc.push(
            e,
        )[a]).0 != (#[trigger] rest[i]).0 by {
            assert(rest[i] == es[i + 1]);
            if a < acc.len() {
                assert(acc.push(e)[a] == acc[a]);
            } else {
                assert(acc.push(e)[a] == es[0]);
            }
        }
        lemma_parse_field_lines(rest, acc.push(e));
        assert(field_lines(es).drop_first() =~= field_lines(rest));
        assert(acc.push(e) + rest =~= acc + es);
    }
}

/// The lines of an encoded descriptor: the header line followed by the
/// field lines.
proof fn lemma_lines_of_encode(es: Seq<(Seq<char>, Seq<char>)>)
    requires
        entries_clean(es),
    ensures
        spec_lines(spec_encode(es)) == seq![header_text()] + field_lines(es),
{
    lemma_literals_clean();
    let h = header_text();
    let fls = field_lines(es);
    let j = join_with(fls, '\n');
    let enc = spec_encode(es);
    assert(enc =~= h + (seq!['\n'] + j));
    lemma_split_acc_append(h, seq!['\n'] + j, '\n', Seq::empty());
    assert(Seq::<char>::empty() + h =~= h);
    assert((seq!['\n'] + j)[0] == '\n');
    assert((seq!['\n'] + j).drop_first() =~= j);
    let parts = split_on(enc, '\n');
    assert(parts == seq![h] + split_on(j, '\n'));
    assert(enc.len() > 0);
    assert forall|i: int| 0 <= i < fls.len() implies !(#[trigger] fls[i]).contains('\n') && !(
    fls[i]).contains('\r') && fls[i].len() > 0 by {
        lemma_field_line(es[i]);
    }
    if es.len() == 0 {
        assert(fls =~= Seq::<Seq<char>>::empty());
        assert(j == Seq::<char>::empty());
        assert(split_on(j, '\n') == seq![Seq::<char>::empty()]);
        assert(parts.last() =~= Seq::<char>::empty());
        assert(parts.drop_last() =~= seq![h]);
        lemma_strip_cr_clean(h);
        assert(spec_lines(enc) =~= seq![h] + fls);
    } else {
        lemma_split_join(fls, '\n');
        assert(parts == seq![h] + fls);
        assert(parts.last() == fls[fls.len() - 1]);
        assert(parts.last().len() > 0);
        let stripped = parts.subrange(0, parts.len() - 1).map_values(
            |l: Seq<char>| strip_cr(l),
        ).push(parts.last());
        assert(spec_lines(enc) == stripped);
        assert forall|i: int| 0 <= i < parts.len() implies #[trigger] stripped[i] == parts[i] by {
            if i < parts.len() - 1 {
                if i == 0 {
                    lemma_strip_cr_clean(h);
                    assert(parts[0] == h);
                } else {
                    assert(parts[i] == fls[i - 1]);
                    lemma_strip_cr_clean(fls[i - 1]);
                }
            }
        }
        assert(stripped =~= parts);
    }
}

/// The key and value a well-formed field line holds.
pub open spec fn line_pair(l: Seq<char>) -> (Seq<char>, Seq<char>) {
    (split_on(l, '=')[0], split_on(l, '=')[1])
}

/// The fields that a sequence of well-formed field lines holds, in order.
pub open spec fn line_pairs(lines: Seq<Seq<char>>) -> Seq<(Seq<char>, Seq<char>)> {
    lines.map_values(|l: Seq<char>| line_pair(l))
}

/// A successful parse of lines with pairwise-distinct fresh keys appends
/// exactly the lines' pairs to the accumulated entries.
proof fn lemma_parse_exact(lines: Seq<Seq<char>>, acc: Seq<(Seq<char>, Seq<char>)>)
    requires
        parse_fields(lines, acc) is Ok,
        forall|i: int, j: int|
            0 <= i < j < lines.len() ==> line_pair(#[trigger] lines[i]).0 != line_pair(
                #[trigger] lines[j],
            ).0,
        forall|a: int, i: int|
            0 <= a < acc.len() && 0 <= i < lines.len() ==> (#[trigger] acc[a]).0 != line_pair(
                #[trigger] lines[i],
            ).0,
    ensures
        forall|i: int| 0 <= i < lines.len() ==> split_on(#[trigger] lines[i], '=').len() == 2,
        parse_fields(lines, acc) == Ok::<Seq<(Seq<char>, Seq<char>)>, ParseError>(
            acc + line_pairs(lines),
        ),
    decreases lines.len(),
{
    if lines.len() == 0 {
        assert(line_pairs(lines) =~= Seq::<(Seq<char>, Seq<char>)>::empty());
        assert(acc + line_pairs(lines) =~= acc);
    } else {
        let parts = split_on(lines[0], '=');
        assert(parts.len() == 2);
        let p = line_pair(lines[0]);
        lemma_find_key(acc, p.0);
        assert(find_key(acc, p.0) < 0);
        assert(entries_insert(acc, parts[0], parts[1]) == acc.push(p));
        let rest = lines.drop_first();
        assert(forall|i: int| 0 <= i < rest.len() ==> #[trigger] rest[i] == lines[i + 1]);
        assert forall|a: int, i: int|
            0 <= a < acc.push(p).len() && 0 <= i < rest.len() implies (#[trigger] acc.push(
            p,
        )[a]).0 != line_pair(#[trigger] rest[i]).0 by {
            assert(rest[i] == lines[i + 1]);
            if a < acc.len() {
                assert(acc.push(p)[a] == acc[a]);
            } else {
                assert(acc.push(p)[a] == p);
                assert(line_pair(lines[0]).0 != line_pair(lines[i + 1]).0);
            }
        }
        lemma_parse_exact(rest, acc.push(p));
        assert(forall|i: int|
            0 <= i < lines.len() ==> split_on(#[trigger] lines[i], '=').len() == 2) by {
            assert(forall|i: int|
                1 <= i < lines.len() ==> lines[i] == rest[i - 1]);
        }
        assert(acc.push(p) + line_pairs(rest) =~= acc + line_pairs(lines));
    }
}

/// Encode is a left inverse of Decode: a text in the exact serialized shape
/// — no carriage return, no trailing line break, at least one field, keys
/// pairwise distinct — is restored unchanged by encoding what it decodes
/// to.
pub proof fn lemma_encode_decode_id(s: Seq<char>, es: Seq<(Seq<char>, Seq<char>)>)
    requires
        spec_decode(s) == Ok::<Seq<(Seq<char>, Seq<char>)>, ParseError>(es),
        s.len() > 0,
        !s.contains('\r'),
        s.last() != '\n',
        spec_lines(s).len() >= 2,
        forall|i: int, j: int|
            1 <= i < j < spec_lines(s).len() ==> line_pair(#[trigger] spec_lines(s)[i]).0
                != line_pair(#[trigger] spec_lines(s)[j]).0,
    ensures
        spec_encode(es) == s,
{
    let parts = split_on(s, '\n');
    lemma_split_acc_last(s, '\n', Seq::empty());
    lemma_split_acc_len(s, '\n', Seq::empty());
    lemma_join_split(s, '\n');
    assert forall|i: int| 0 <= i < parts.len() implies !(#[trigger] parts[i]).contains('\r') by {
        if parts[i].contains('\r') {
            lemma_join_contains(parts, '\n', '\r');
        }
    }
    let ls = spec_lines(s);
    assert(parts.last().len() > 0);
    let stripped = parts.subrange(0, parts.len() - 1).map_values(|l: Seq<char>| strip_cr(l)).push(
        parts.last(),
    );
    assert(ls == stripped);
    assert forall|i: int| 0 <= i < parts.len() implies #[trigger] stripped[i] == parts[i] by {
        if i < parts.len() - 1 {
            lemma_strip_cr_clean(parts[i]);
        }
    }
    assert(ls =~= parts);
    let body = ls.drop_first();
    assert(forall|i: int| 0 <= i < body.len() ==> #[trigger] body[i] == ls[i + 1]);
    assert(parse_fields(body, Seq::empty()) == Ok::<Seq<(Seq<char>, Seq<char>)>, ParseError>(es));
    assert forall|i: int, j: int|
        0 <= i < j < body.len() implies line_pair(#[trigger] body[i]).0 != line_pair(
        #[trigger] body[j],
    ).0 by {
        assert(body[i] == ls[i + 1] && body[j] == ls[j + 1]);
    }
    lemma_parse_exact(body, Seq::empty());
    assert(es =~= line_pairs(body)) by {
        assert(Seq::<(Seq<char>, Seq<char>)>::empty() + line_pairs(body) =~= line_pairs(body));
    }
    assert forall|i: int| 0 <= i < es.len() implies field_lines(es)[i] == #[trigger] body[i] by {
        let sp = split_on(body[i], '=');
        assert(sp.len() == 2);
        lemma_join_split(body[i], '=');
        assert(join_with(sp, '=') == sp[0] + seq!['='] + join_with(sp.drop_first(), '='));
        assert(sp.drop_first() =~= seq![sp[1]]);
        assert(join_with(seq![sp[1]], '=') == sp[1]);
        assert(es[i] == line_pair(body[i]));
        assert(field_line(es[i]) == sp[0] + seq!['='] + sp[1]);
    }
    assert(field_lines(es) =~= body);
    assert(join_with(parts, '\n') == parts[0] + seq!['\n'] + join_with(parts.drop_first(), '\n'));
    assert(parts.drop_first() =~= body);
    assert(ls[0] == header_text());
    assert(spec_encode(es) == header_text() + seq!['\n'] + join_with(field_lines(es), '\n'));
    assert(spec_encode(es) == s);
}

/// Inserting a clean field into clean entries keeps them clean.
proof fn lemma_entries_insert_clean(
    acc: Seq<(Seq<char>, Seq<char>)>,
    k: Seq<char>,
    v: Seq<char>,
)
    requires
        entries_clean(acc),
        clean_text(k),
        clean_text(v),
    ensures
        entries_clean(entries_insert(acc, k, v)),
{
    lemma_find_key(acc, k);
    let r = entries_insert(acc, k, v);
    assert forall|i: int| 0 <= i < r.len() implies clean_text((#[trigger] r[i]).0) && clean_text(
        r[i].1,
    ) by {
        if r[i] != (k, v) {
            assert(r[i] == acc[i]);
        }
    }
}

/// A successful parse of lines free of line breaks and carriage returns
/// yields clean entries, and starting from unique keys keeps them unique.
proof fn lemma_parse_clean_unique(lines: Seq<Seq<char>>, acc: Seq<(Seq<char>, Seq<char>)>)
    requires
        entries_clean(acc),
        keys_unique(acc),
        forall|i: int|
            0 <= i < lines.len() ==> !(#[trigger] lines[i]).contains('\n') && !(
            lines[i]).contains('\r'),
    ensures
        parse_fields(lines, acc) matches Ok(res) ==> entries_clean(res) && keys_unique(res),
    decreases lines.len(),
{
    if lines.len() == 0 {
    } else {
        let parts = split_on(lines[0], '=');
        if parts.len() == 2 {
            lemma_split_acc_no_sep(lines[0], '=', Seq::empty());
            lemma_join_split(lines[0], '=');
            lemma_join_contains(parts, '=', '\n');
            lemma_join_contains(parts, '=', '\r');
            assert(!parts[0].contains('\n') && !parts[1].contains('\n'));
            assert(!parts[0].contains('\r') && !parts[1].contains('\r'));
            assert(clean_text(parts[0]) && clean_text(parts[1]));
            lemma_entries_insert_clean(acc, parts[0], parts[1]);
            lemma_entries_insert_unique(acc, parts[0], parts[1]);
            let rest = lines.drop_first();
            assert(forall|i: int| 0 <= i < rest.len() ==> #[trigger] rest[i] == lines[i + 1]);
            lemma_parse_clean_unique(rest, entries_insert(acc, parts[0], parts[1]));
        }
    }
}

/// The lines of a text free of carriage returns hold no line break and no
/// carriage return.
proof fn lemma_lines_clean(s: Seq<char>)
    requires
        !s.contains('\r'),
    ensures
        forall|i: int|
            0 <= i < spec_lines(s).len() ==> !(#[trigger] spec_lines(s)[i]).contains('\n') && !(
            spec_lines(s)[i]).contains('\r'),
{
    if s.len() == 0 {
    } else {
        let parts = split_on(s, '\n');
        lemma_split_acc_no_sep(s, '\n', Seq::empty());
        lemma_split_acc_len(s, '\n', Seq::empty());
        lemma_join_split(s, '\n');
        assert forall|i: int| 0 <= i < parts.len() implies !(#[trigger] parts[i]).contains('\r')
            by {
            if parts[i].contains('\r') {
                lemma_join_contains(parts, '\n', '\r');
            }
        }
        let ls = spec_lines(s);
        assert forall|i: int| 0 <= i < ls.len() implies !(#[trigger] ls[i]).contains('\n') && !(
        ls[i]).contains('\r') by {
            if parts.last().len() == 0 {
                assert(ls[i] == strip_cr(parts.drop_last()[i]));
                assert(parts.drop_last()[i] == parts[i]);
                lemma_strip_cr_contains(parts[i], '\n');
                lemma_strip_cr_contains(parts[i], '\r');
            } else {
                if i < ls.len() - 1 {
                    assert(ls[i] == strip_cr(parts.subrange(0, parts.len() - 1)[i]));
                    assert(parts.subrange(0, parts.len() - 1)[i] == parts[i]);
                    lemma_strip_cr_contains(parts[i], '\n');
                    lemma_strip_cr_contains(parts[i], '\r');
                } else {
                    assert(ls[i] == parts.last());
                }
            }
        }
    }
}

/// What decoding a text free of carriage returns yields: clean entries with
/// unique keys.
pub proof fn lemma_decode_clean_unique(s: Seq<char>)
    requires
        !s.contains('\r'),
    ensures
        spec_decode(s) matches Ok(es) ==> entries_clean(es) && keys_unique(es),
{
    let ls = spec_lines(s);
    lemma_lines_clean(s);
    if ls.len() != 0 && ls[0] == header_text() {
        let body = ls.drop_first();
        assert(forall|i: int| 0 <= i < body.len() ==> #[trigger] body[i] == ls[i + 1]);
        lemma_parse_clean_unique(body, Seq::empty());
    }
}

/// Every MIME token is non-empty and free of semicolons, and clean when the
/// field value is clean.
proof fn lemma_mime_tokens_parts(v: Seq<char>)
    ensures
        forall|i: int|
            0 <= i < mime_tokens(v).len() ==> (#[trigger] mime_tokens(v)[i]).len() > 0 && !(
            mime_tokens(v)[i]).contains(';'),
        clean_text(v) ==> forall|i: int|
            0 <= i < mime_tokens(v).len() ==> clean_text(#[trigger] mime_tokens(v)[i]),
{
    let parts = split_on(v, ';');
    lemma_split_acc_no_sep(v, ';', Seq::empty());
    lemma_join_split(v, ';');
    lemma_drop_empty_parts(parts);
    let toks = mime_tokens(v);
    assert forall|i: int| 0 <= i < toks.len() implies (#[trigger] toks[i]).len() > 0 && !(
    toks[i]).contains(';') && (clean_text(v) ==> clean_text(toks[i])) by {
        assert(parts.contains(toks[i]));
        let j = choose|j: int| 0 <= j < parts.len() && parts[j] == toks[i];
        assert(!parts[j].contains(';'));
        if clean_text(v) {
            if parts[j].contains('\n') {
                lemma_join_contains(parts, ';', '\n');
            }
            if parts[j].contains('\r') {
                lemma_join_contains(parts, ';', '\r');
            }
            if parts[j].contains('=') {
                lemma_join_contains(parts, ';', '=');
            }
        }
    }
}

/// A semicolon join of clean tokens is a clean field value.
proof fn lemma_join_clean(toks: Seq<Seq<char>>)
    requires
        forall|i: int| 0 <= i < toks.len() ==> clean_text(#[trigger] toks[i]),
    ensures
        clean_text(join_with(toks, ';')),
{
    lemma_join_contains(toks, ';', '\n');
    lemma_join_contains(toks, ';', '\r');
    lemma_join_contains(toks, ';', '=');
}

/// Decode is a left inverse of Encode: a descriptor whose fields are unique
/// and clean comes back unchanged from its own serialized form.
pub proof fn lemma_decode_encode_id(es: Seq<(Seq<char>, Seq<char>)>)
    requires
        keys_unique(es),
        entries_clean(es),
    ensures
        spec_decode(spec_encode(es)) == Ok::<Seq<(Seq<char>, Seq<char>)>, ParseError>(es),
{
    lemma_lines_of_encode(es);
    let ls = spec_lines(spec_encode(es));
    assert(ls[0] == header_text());
    assert(ls.drop_first() =~= field_lines(es));
    lemma_parse_field_lines(es, Seq::empty());
    assert(Seq::<(Seq<char>, Seq<char>)>::empty() + es =~= es);
}

/// Inserting the same scheme-handler token twice changes the descriptor
/// exactly as inserting it once: the second insertion finds the token it
/// put there and replaces it with itself.
pub proof fn lemma_insert_handler_idempotent(es: Seq<(Seq<char>, Seq<char>)>, tok: Seq<char>)
    requires
        has_prefix(tok, scheme_prefix()),
        !tok.contains(';'),
        tok.len() > 0,
    ensures
        spec_insert_handler(spec_insert_handler(es, tok), tok) == spec_insert_handler(es, tok),
{
    lemma_find_key(es, mime_key());
    let i = find_key(es, mime_key());
    lemma_split_single(tok, ';');
    lemma_drop_empty_id(seq![tok]);
    assert(mime_tokens(tok) == seq![tok]);
    assert(join_with(seq![tok], ';') == tok);
    if i < 0 {
        let es1 = es.push((mime_key(), tok));
        assert(spec_insert_handler(es, tok) == es1);
        lemma_find_key(es1, mime_key());
        let f1 = find_key(es1, mime_key());
        assert(es1[es.len() as int].0 == mime_key());
        assert(f1 >= 0);
        assert(forall|j: int| 0 <= j < es.len() ==> #[trigger] es1[j] == es[j]);
        assert(f1 == es.len());
        let toks = mime_tokens(es1[f1].1);
        assert(es1[f1].1 == tok);
        lemma_find_prefixed(toks, scheme_prefix());
        assert(has_prefix(toks[0], scheme_prefix()));
        assert(find_prefixed(toks, scheme_prefix()) == 0);
        assert(toks.update(0, tok) =~= toks);
        assert(entries_insert(es1, mime_key(), tok) == es1.update(f1, (mime_key(), tok)));
        assert(es1.update(f1, (mime_key(), tok)) =~= es1);
        assert(spec_insert_handler(es1, tok) == es1);
    } else {
        let toks = mime_tokens(es[i].1);
        lemma_mime_tokens_parts(es[i].1);
        lemma_find_prefixed(toks, scheme_prefix());
        let j = find_prefixed(toks, scheme_prefix());
        let toks2 = if j < 0 {
            toks.push(tok)
        } else {
            toks.update(j, tok)
        };
        let v1 = join_with(toks2, ';');
        let es1 = es.update(i, (mime_key(), v1));
        assert(entries_insert(es, mime_key(), v1) == es1);
        assert(spec_insert_handler(es, tok) == es1);
        lemma_find_key(es1, mime_key());
        let f1 = find_key(es1, mime_key());
        assert(es1[i].0 == mime_key());
        assert(f1 >= 0);
        assert(forall|l: int| 0 <= l < es.len() && l != i ==> #[trigger] es1[l] == es[l]);
        assert(f1 == i);
        assert(forall|l: int|
            0 <= l < toks2.len() ==> (#[trigger] toks2[l]).len() > 0 && !toks2[l].contains(';'));
        assert(toks2.len() >= 1);
        lemma_split_join(toks2, ';');
        lemma_drop_empty_id(toks2);
        assert(mime_tokens(v1) == toks2);
        lemma_find_prefixed(toks2, scheme_prefix());
        let j2 = find_prefixed(toks2, scheme_prefix());
        if j < 0 {
            assert(toks2[toks.len() as int] == tok);
            assert(j2 >= 0);
            assert(forall|l: int| 0 <= l < toks.len() ==> #[trigger] toks2[l] == toks[l]);
            assert(j2 == toks.len());
        } else {
            assert(toks2[j] == tok);
            assert(j2 >= 0);
            assert(forall|l: int| 0 <= l < j ==> #[trigger] toks2[l] == toks[l]);
            assert(j2 == j);
        }
        assert(toks2.update(j2, tok) =~= toks2);
        assert(entries_insert(es1, mime_key(), v1) == es1.update(i, (mime_key(), v1)));
        assert(es1.update(i, (mime_key(), v1)) =~= es1);
        assert(spec_insert_handler(es1, tok) == es1);
    }
}

/// After an insertion the `MimeType` field is present and holds exactly one
/// scheme-handler token, provided it held at most one before.
pub proof fn lemma_insert_handler_single(es: Seq<(Seq<char>, Seq<char>)>, tok: Seq<char>)
    requires
        has_prefix(tok, scheme_prefix()),
        !tok.contains(';'),
        tok.len() > 0,
        find_key(es, mime_key()) >= 0 ==> at_most_one_handler(
            mime_tokens(es[find_key(es, mime_key())].1),
        ),
    ensures
        ({
            let es1 = spec_insert_handler(es, tok);
            let f = find_key(es1, mime_key());
            let toks1 = mime_tokens(es1[f].1);
            &&& f >= 0
            &&& find_prefixed(toks1, scheme_prefix()) >= 0
            &&& at_most_one_handler(toks1)
        }),
{
    lemma_find_key(es, mime_key());
    let i = find_key(es, mime_key());
    lemma_split_single(tok, ';');
    lemma_drop_empty_id(seq![tok]);
    assert(mime_tokens(tok) == seq![tok]);
    if i < 0 {
        let es1 = es.push((mime_key(), tok));
        assert(spec_insert_handler(es, tok) == es1);
        lemma_find_key(es1, mime_key());
        assert(es1[es.len() as int].0 == mime_key());
        let f = find_key(es1, mime_key());
        assert(f >= 0);
        assert(forall|l: int| 0 <= l < es.len() ==> #[trigger] es1[l] == es[l]);
        assert(f == es.len());
        let toks1 = mime_tokens(es1[f].1);
        assert(toks1 == seq![tok]);
        lemma_find_prefixed(toks1, scheme_prefix());
        assert(has_prefix(toks1[0], scheme_prefix()));
    } else {
        let toks = mime_tokens(es[i].1);
        lemma_mime_tokens_parts(es[i].1);
        lemma_find_prefixed(toks, scheme_prefix());
        let j = find_prefixed(toks, scheme_prefix());
        let toks2 = if j < 0 {
            toks.push(tok)
        } else {
            toks.update(j, tok)
        };
        let v1 = join_with(toks2, ';');
        let es1 = es.update(i, (mime_key(), v1));
        assert(entries_insert(es, mime_key(), v1) == es1);
        assert(spec_insert_handler(es, tok) == es1);
        lemma_find_key(es1, mime_key());
        assert(es1[i].0 == mime_key());
        let f = find_key(es1, mime_key());
        assert(f >= 0);
        assert(forall|l: int| 0 <= l < es.len() && l != i ==> #[trigger] es1[l] == es[l]);
        assert(f == i);
        assert(forall|l: int|
            0 <= l < toks2.len() ==> (#[trigger] toks2[l]).len() > 0 && !toks2[l].contains(';'));
        lemma_split_join(toks2, ';');
        lemma_drop_empty_id(toks2);
        assert(mime_tokens(v1) == toks2);
        lemma_find_prefixed(toks2, scheme_prefix());
        if j < 0 {
            assert(toks2[toks.len() as int] == tok);
            assert(find_prefixed(toks2, scheme_prefix()) >= 0);
            assert forall|a: int, b: int|
                0 <= a < b < toks2.len() && has_prefix(
                    #[trigger] toks2[a],
                    scheme_prefix(),
                ) implies !has_prefix(#[trigger] toks2[b], scheme_prefix()) by {
                assert(toks2[a] == toks[a]);
                assert(!has_prefix(toks[a], scheme_prefix()));
            }
        } else {
            assert(toks2[j] == tok);
            assert(find_prefixed(toks2, scheme_prefix()) >= 0);
            assert forall|a: int, b: int|
                0 <= a < b < toks2.len() && has_prefix(
                    #[trigger] toks2[a],
                    scheme_prefix(),
                ) implies !has_prefix(#[trigger] toks2[b], scheme_prefix()) by {
                if a < j {
                    assert(toks2[a] == toks[a]);
                    assert(!has_prefix(toks[a], scheme_prefix()));
                } else if a == j {
                    assert(b > j);
                    assert(toks2[b] == toks[b]);
                    assert(has_prefix(toks[j], scheme_prefix()));
                } else {
                    assert(toks2[a] == toks[a] && toks2[b] == toks[b]);
                    assert(has_prefix(toks[j], scheme_prefix()));
                }
            }
        }
    }
}

/// After a deletion no scheme-handler token remains anywhere in the
/// `MimeType` field, provided the field held at most one before.
pub proof fn lemma_delete_handler_none(es: Seq<(Seq<char>, Seq<char>)>)
    requires
        keys_unique(es),
        find_key(es, mime_key()) >= 0 ==> at_most_one_handler(
            mime_tokens(es[find_key(es, mime_key())].1),
        ),
    ensures
        ({
            let es1 = spec_delete_handler(es);
            let f = find_key(es1, mime_key());
            f >= 0 ==> find_prefixed(mime_tokens(es1[f].1), scheme_prefix()) < 0
        }),
{
    lemma_find_key(es, mime_key());
    let i = find_key(es, mime_key());
    if i >= 0 {
        let toks = mime_tokens(es[i].1);
        lemma_mime_tokens_parts(es[i].1);
        lemma_find_prefixed(toks, scheme_prefix());
        let j = find_prefixed(toks, scheme_prefix());
        if j >= 0 {
            let toks2 = toks.remove(j);
            assert forall|l: int| 0 <= l < toks2.len() implies !has_prefix(
                #[trigger] toks2[l],
                scheme_prefix(),
            ) by {
                if l < j {
                    assert(toks2[l] == toks[l]);
                } else {
                    assert(toks2[l] == toks[l + 1]);
                    assert(has_prefix(toks[j], scheme_prefix()));
                }
            }
            if toks2.len() > 0 {
                let v1 = join_with(toks2, ';');
                let es1 = es.update(i, (mime_key(), v1));
                assert(entries_insert(es, mime_key(), v1) == es1);
                assert(spec_delete_handler(es) == es1);
                lemma_find_key(es1, mime_key());
                assert(es1[i].0 == mime_key());
                let f = find_key(es1, mime_key());
                assert(f >= 0);
                assert(forall|l: int| 0 <= l < es.len() && l != i ==> #[trigger] es1[l] == es[l]);
                assert(f == i);
                assert(forall|l: int|
                    0 <= l < toks2.len() ==> (#[trigger] toks2[l]).len() > 0 && !toks2[l].contains(
                        ';',
                    )) by {
                    assert(forall|l: int|
                        0 <= l < toks2.len() ==> toks2[l] == toks[l] || toks2[l] == toks[l + 1]);
                }
                lemma_split_join(toks2, ';');
                lemma_drop_empty_id(toks2);
                assert(mime_tokens(v1) == toks2);
                lemma_find_prefixed(toks2, scheme_prefix());
                assert(find_prefixed(toks2, scheme_prefix()) < 0);
            } else {
                let es1 = es.remove(i);
                assert(spec_delete_handler(es) == es1);
                lemma_find_key(es1, mime_key());
                let f = find_key(es1, mime_key());
                if f >= 0 {
                    assert(es1[f].0 == mime_key());
                    let f0: int = if f < i {
                        f
                    } else {
                        f + 1
                    };
                    assert(es1[f] == es[f0]);
                    assert(es[f0].0 == es[i].0);
                }
            }
        }
    }
}

/// Registering the same handler and scheme twice in a row yields the very
/// text the first registration produced: registration is idempotent on any
/// decodable file free of carriage returns, for a clean executable path and
/// a clean, semicolon-free scheme name.
pub proof fn lemma_register_idempotent(content: Seq<char>, exe: Seq<char>, proto: Seq<char>)
    requires
        spec_decode(content) is Ok,
        !content.contains('\r'),
        clean_text(exe),
        clean_text(proto),
        !proto.contains(';'),
    ensures
        spec_register(content, exe, proto) is Ok,
        spec_register(content, exe, proto) matches Ok(c1) ==> spec_register(c1, exe, proto)
            == Ok::<Seq<char>, ParseError>(c1),
{
    let es = spec_decode(content)->Ok_0;
    lemma_decode_clean_unique(content);
    lemma_literals_clean();
    reveal_strlit("Exec");
    reveal_strlit("MimeType");
    assert(clean_text(exec_key()) && clean_text(mime_key()));
    assert(exec_key().len() == 4 && mime_key().len() == 8);
    let ev = exe + " %u"@;
    assert(clean_text(ev)) by {
        lemma_concat_contains(exe, " %u"@, '\n');
        lemma_concat_contains(exe, " %u"@, '\r');
        lemma_concat_contains(exe, " %u"@, '=');
    }
    let es_e = with_exec_default(es, exe);
    lemma_find_key(es, exec_key());
    if find_key(es, exec_key()) < 0 {
        lemma_entries_insert_clean(es, exec_key(), ev);
        lemma_entries_insert_unique(es, exec_key(), ev);
    }
    assert(keys_unique(es_e) && entries_clean(es_e));
    lemma_find_key(es_e, exec_key());
    assert(find_key(es_e, exec_key()) >= 0) by {
        if find_key(es, exec_key()) < 0 {
            assert(es_e == es.push((exec_key(), ev)));
            assert(es_e[es.len() as int].0 == exec_key());
        }
    }
    let tok = scheme_token(proto);
    assert(has_prefix(tok, scheme_prefix())) by {
        assert(tok.subrange(0, scheme_prefix().len() as int) =~= scheme_prefix());
    }
    assert(!tok.contains(';')) by {
        lemma_concat_contains(scheme_prefix(), proto, ';');
    }
    assert(clean_text(tok)) by {
        lemma_concat_contains(scheme_prefix(), proto, '\n');
        lemma_concat_contains(scheme_prefix(), proto, '\r');
        lemma_concat_contains(scheme_prefix(), proto, '=');
    }
    assert(tok.len() > 0);
    let es1 = spec_insert_handler(es_e, tok);
    lemma_find_key(es_e, mime_key());
    let mi = find_key(es_e, mime_key());
    if mi < 0 {
        assert(es1 == entries_insert(es_e, mime_key(), tok));
        lemma_entries_insert_unique(es_e, mime_key(), tok);
        lemma_entries_insert_clean(es_e, mime_key(), tok);
    } else {
        let toks = mime_tokens(es_e[mi].1);
        lemma_mime_tokens_parts(es_e[mi].1);
        assert(clean_text(es_e[mi].1));
        lemma_find_prefixed(toks, scheme_prefix());
        let j = find_prefixed(toks, scheme_prefix());
        let toks2 = if j < 0 {
            toks.push(tok)
        } else {
            toks.update(j, tok)
        };
        assert forall|l: int| 0 <= l < toks2.len() implies clean_text(#[trigger] toks2[l]) by {
            if j < 0 && l < toks.len() {
                assert(toks2[l] == mime_tokens(es_e[mi].1)[l]);
            } else if j >= 0 && l != j {
                assert(toks2[l] == mime_tokens(es_e[mi].1)[l]);
            } else {
                assert(toks2[l] == tok);
            }
        }
        lemma_join_clean(toks2);
        lemma_entries_insert_unique(es_e, mime_key(), join_with(toks2, ';'));
        lemma_entries_insert_clean(es_e, mime_key(), join_with(toks2, ';'));
        assert(es1 == entries_insert(es_e, mime_key(), join_with(toks2, ';')));
    }
    assert(keys_unique(es1) && entries_clean(es1));
    lemma_find_key(es1, exec_key());
    assert(find_key(es1, exec_key()) >= 0) by {
        let f = find_key(es_e, exec_key());
        lemma_find_key(es_e, mime_key());
        if mi < 0 {
            assert(es1 == es_e.push((mime_key(), es1.last().1)) || es1 == entries_insert(
                es_e,
                mime_key(),
                es1.last().1,
            ));
            assert(es1[f] == es_e[f]);
        } else {
            assert(es_e[mi].0 == mime_key());
            assert(mi != f);
            assert(es1[f] == es_e[f]);
        }
        assert(es1[f].0 == exec_key());
    }
    let c1 = spec_encode(es1);
    assert(spec_register(content, exe, proto) == Ok::<Seq<char>, ParseError>(c1));
    lemma_decode_encode_id(es1);
    assert(spec_decode(c1) == Ok::<Seq<(Seq<char>, Seq<char>)>, ParseError>(es1));
    assert(with_exec_default(es1, exe) == es1);
    lemma_insert_handler_idempotent(es_e, tok);
    assert(spec_insert_handler(es1, tok) == es1);
    assert(spec_register(c1, exe, proto) == Ok::<Seq<char>, ParseError>(c1));
}

} // verus!


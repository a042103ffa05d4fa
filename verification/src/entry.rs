//! The descriptor type: an ordered field map decoded from and encoded back
//! to the `[Desktop Entry]` text format, with the scheme-handler mutations.
use vstd::prelude::*;
use vstd::string::{StrSliceExecFns, StringExecFns};

use crate::index_map::{
    imap_get, imap_get_index, imap_insert, imap_len, imap_new, imap_shift_remove, map_entries,
};
use crate::model::{
    entries_insert, field_line, field_lines, find_key, find_prefixed, header_text, keys_unique,
    lemma_entries_insert_unique, lemma_entries_remove_unique, lemma_find_key, lemma_find_prefixed,
    mime_key, mime_tokens, parse_fields, spec_decode, spec_delete_handler, spec_encode,
    spec_insert_handler, with_exec_default,
};
use crate::text::{
    drop_empty, has_prefix, join_strs, join_with, lemma_drop_empty_concat, lemma_join_push,
    spec_lines, split_lines, split_on, split_str, str_eq, str_starts_with,
};
use crate::ParseError;

verus! {

/// A parsed descriptor: an insertion-ordered map from field name to field
/// value.
#[derive(Debug)]
pub struct DesktopEntry {
    data: indexmap::IndexMap<String, String>,
}

impl View for DesktopEntry {
    type V = Seq<(Seq<char>, Seq<char>)>;

    closed spec fn view(&self) -> Seq<(Seq<char>, Seq<char>)> {
        map_entries(self.data)
    }
}

impl DesktopEntry {
    /// A well-formed descriptor holds each field name once.
    pub open spec fn wf(&self) -> bool {
        keys_unique(self@)
    }

    /// An empty descriptor.
    pub fn new() -> (d: DesktopEntry)
        ensures
            d@ == Seq::<(Seq<char>, Seq<char>)>::empty(),
            d.wf(),
    {
        DesktopEntry { data: imap_new() }
    }

    /// The value of the field named `key`, if the field is present.
    pub fn get<'a>(&'a self, key: &str) -> (r: Option<&'a String>)
        ensures
            r is Some <==> find_key(self@, key@) >= 0,
            r matches Some(v) ==> v@ == self@[find_key(self@, key@)].1,
    {
        imap_get(&self.data, key)
    }

    /// Whether a field named `key` is present.
    pub fn contains_key(&self, key: &str) -> (r: bool)
        ensures
            r == (find_key(self@, key@) >= 0),
    {
        imap_get(&self.data, key).is_some()
    }

    /// Set the field named `key` to `value`: an existing field keeps its
    /// position, a new one is appended last.
    pub fn insert_field(&mut self, key: String, value: String)
        ensures
            final(self)@ == entries_insert(old(self)@, key@, value@),
            old(self).wf() ==> final(self).wf(),
    {
        proof {
            if keys_unique(self@) {
                lemma_entries_insert_unique(self@, key@, value@);
            }
        }
        imap_insert(&mut self.data, key, value);
    }

    /// Decode a descriptor text. Empty input gives an empty descriptor; any
    /// other input must open with the header line and continue with
    /// `key=value` lines, a later duplicate key overwriting the earlier
    /// value in place. The first malformed line aborts the decode.
    pub fn try_from(s: &str) -> (r: Result<DesktopEntry, ParseError>)
        ensures
            r matches Ok(d) ==> spec_decode(s@) == Ok::<Seq<(Seq<char>, Seq<char>)>, ParseError>(
                d@,
            ) && d.wf(),
            r matches Err(e) ==> spec_decode(s@) == Err::<
                Seq<(Seq<char>, Seq<char>)>,
                ParseError,
            >(e),
    {
        let ls = split_lines(s);
        let ghost lines = spec_lines(s@);
        let mut d = DesktopEntry { data: imap_new() };
        if ls.len() == 0 {
            return Ok(d);
        }
        if !str_eq(ls[0].as_str(), "[Desktop Entry]") {
            proof {
                assert(lines[0] != header_text());
            }
            return Err(ParseError::NotDesktopEntry);
        }
        let n = ls.len();
        let mut idx: usize = 1;
        proof {
            assert(ls.deep_view()[0] == ls@[0]@);
            assert(lines[0] == header_text());
            assert(lines.drop_first() =~= lines.skip(1));
        }
        while idx < n
            invariant
                1 <= idx <= n,
                n == ls@.len(),
                ls.deep_view() == lines,
                lines == spec_lines(s@),
                lines.len() == n,
                lines[0] == header_text(),
                keys_unique(map_entries(d.data)),
                parse_fields(lines.skip(idx as int), map_entries(d.data)) == parse_fields(
                    lines.skip(1),
                    Seq::empty(),
                ),
            decreases n - idx,
        {
            let ps = split_str(ls[idx].as_str(), '=');
            let ghost parts = split_on(lines[idx as int], '=');
            proof {
                assert(ls@[idx as int]@ == lines[idx as int]);
                assert(lines.skip(idx as int)[0] == lines[idx as int]);
            }
            if ps.len() != 2 {
                proof {
                    assert(parts.len() != 2);
                    assert(parse_fields(lines.skip(idx as int), map_entries(d.data))
                        == Err::<Seq<(Seq<char>, Seq<char>)>, ParseError>(
                        ParseError::InvalidFieldFormat,
                    ));
                    assert(parse_fields(lines.skip(1), Seq::empty()) == Err::<
                        Seq<(Seq<char>, Seq<char>)>,
                        ParseError,
                    >(ParseError::InvalidFieldFormat));
                    assert(lines.drop_first() =~= lines.skip(1));
                    assert(spec_decode(s@) == Err::<Seq<(Seq<char>, Seq<char>)>, ParseError>(
                        ParseError::InvalidFieldFormat,
                    ));
                }
                return Err(ParseError::InvalidFieldFormat);
            }
            let key = ps[0].clone();
            let value = ps[1].clone();
            proof {
                assert(key@ == parts[0]);
                assert(value@ == parts[1]);
                lemma_entries_insert_unique(map_entries(d.data), key@, value@);
                assert(lines.skip(idx as int).drop_first() =~= lines.skip(idx + 1));
            }
            imap_insert(&mut d.data, key, value);
            idx = idx + 1;
        }
        proof {
            assert(lines.skip(n as int) =~= Seq::<Seq<char>>::empty());
            assert(lines.drop_first() =~= lines.skip(1));
        }
        Ok(d)
    }

    /// Encode the descriptor: the header line, then one `key=value` line per
    /// field in order.
    pub fn to_string(&self) -> (r: String)
        ensures
            r@ == spec_encode(self@),
    {
        let ghost es = map_entries(self.data);
        let mut r = String::from_str("[Desktop Entry]");
        r.append("\n");
        proof {
            reveal_strlit("\n");
            assert("\n"@ =~= seq!['\n']);
            assert(es.take(0) =~= Seq::<(Seq<char>, Seq<char>)>::empty());
            assert(field_lines(es.take(0)) =~= Seq::<Seq<char>>::empty());
            assert(r@ =~= header_text() + seq!['\n'] + join_with(field_lines(es.take(0)), '\n'));
        }
        let n = imap_len(&self.data);
        let mut i: usize = 0;
        while i < n
            invariant
                0 <= i <= n,
                n as nat == es.len(),
                es == map_entries(self.data),
                r@ == header_text() + seq!['\n'] + join_with(field_lines(es.take(i as int)), '\n'),
            decreases n - i,
        {
            let kv = imap_get_index(&self.data, i).unwrap();
            if i > 0 {
                r.append("\n");
            }
            r.append(kv.0.as_str());
            r.append("=");
            r.append(kv.1.as_str());
            proof {
                reveal_strlit("\n");
                reveal_strlit("=");
                assert("\n"@ =~= seq!['\n']);
                assert("="@ =~= seq!['=']);
                let fl = field_lines(es.take(i as int));
                let line = field_line(es[i as int]);
                assert(line =~= kv.0@ + "="@ + kv.1@);
                assert(field_lines(es.take(i + 1)) =~= fl.push(line)) by {
                    assert(es.take(i + 1) =~= es.take(i as int).push(es[i as int]));
                }
                if i == 0 {
                    assert(join_with(fl, '\n') == Seq::<char>::empty());
                    assert(join_with(seq![line], '\n') == line);
                    assert(fl.push(line) =~= seq![line]);
                    assert(r@ =~= header_text() + seq!['\n'] + join_with(fl.push(line), '\n'));
                } else {
                    lemma_join_push(fl, '\n', line);
                    assert(fl.len() == i);
                    assert(r@ =~= header_text() + seq!['\n'] + join_with(fl.push(line), '\n'));
                }
            }
            i = i + 1;
        }
        proof {
            assert(es.take(n as int) =~= es);
        }
        r
    }

    /// The MIME tokens of the `MimeType` field, if the field is present.
    fn get_mime_types(&self) -> (r: Option<Vec<String>>)
        ensures
            r is Some <==> find_key(self@, mime_key()) >= 0,
            r matches Some(v) ==> v.deep_view() == mime_tokens(
                self@[find_key(self@, mime_key())].1,
            ),
    {
        let got = imap_get(&self.data, "MimeType");
        match got {
            Some(val) => {
                let parts = split_str(val.as_str(), ';');
                let ghost pv = parts.deep_view();
                let mut out: Vec<String> = Vec::new();
                let n = parts.len();
                let mut i: usize = 0;
                proof {
                    assert(pv.take(0) =~= Seq::<Seq<char>>::empty());
                    assert(out.deep_view() =~= drop_empty(pv.take(0)));
                }
                while i < n
                    invariant
                        0 <= i <= n,
                        n == parts@.len(),
                        pv == parts.deep_view(),
                        pv.len() == n,
                        out.deep_view() == drop_empty(pv.take(i as int)),
                    decreases n - i,
                {
                    let ghost out0 = out.deep_view();
                    if !parts[i].as_str().is_empty() {
                        out.push(parts[i].clone());
                        proof {
                            assert(out.deep_view() =~= out0.push(pv[i as int])) by {
                                assert(forall|j: int|
                                    0 <= j < out@.len() ==> out.deep_view()[j] == (
                                    #[trigger] out@[j])@);
                            }
                        }
                    }
                    proof {
                        assert(pv.take(i + 1) =~= pv.take(i as int) + seq![pv[i as int]]);
                        lemma_drop_empty_concat(pv.take(i as int), seq![pv[i as int]]);
                        assert(seq![pv[i as int]].drop_first() =~= Seq::<Seq<char>>::empty());
                        assert(drop_empty(Seq::<Seq<char>>::empty())
                            == Seq::<Seq<char>>::empty());
                        if pv[i as int].len() == 0 {
                            assert(drop_empty(seq![pv[i as int]]) =~= Seq::<Seq<char>>::empty());
                            assert(out.deep_view() =~= drop_empty(pv.take(i as int)) + drop_empty(
                                seq![pv[i as int]],
                            ));
                        } else {
                            assert(drop_empty(seq![pv[i as int]]) =~= seq![pv[i as int]]);
                            assert(out.deep_view() =~= drop_empty(pv.take(i as int)) + drop_empty(
                                seq![pv[i as int]],
                            ));
                        }
                    }
                    i = i + 1;
                }
                proof {
                    assert(pv.take(n as int) =~= pv);
                }
                Some(out)
            },
            None => None,
        }
    }

    /// The position of the first token in `split` carrying the given
    /// prefix, if any does.
    fn find_mime_type(&self, split: &Vec<String>, starts_with: &str) -> (r: Option<usize>)
        ensures
            r is Some <==> find_prefixed(split.deep_view(), starts_with@) >= 0,
            r matches Some(i) ==> i as int == find_prefixed(split.deep_view(), starts_with@),
    {
        let ghost dv = split.deep_view();
        let n = split.len();
        let mut i: usize = 0;
        while i < n
            invariant
                0 <= i <= n,
                n == split@.len(),
                dv == split.deep_view(),
                dv.len() == n,
                forall|j: int| 0 <= j < i ==> !has_prefix(#[trigger] dv[j], starts_with@),
            decreases n - i,
        {
            if str_starts_with(split[i].as_str(), starts_with) {
                proof {
                    assert(dv[i as int] == split@[i as int]@);
                    lemma_find_prefixed(dv, starts_with@);
                }
                return Some(i);
            }
            proof {
                assert(dv[i as int] == split@[i as int]@);
            }
            i = i + 1;
        }
        proof {
            lemma_find_prefixed(dv, starts_with@);
        }
        None
    }

    /// Insert the scheme-handler token `entry` into the `MimeType` field:
    /// the field is created when absent, the first prefixed token is
    /// replaced in place, and otherwise the token is appended; no other
    /// token is touched.
    pub fn insert_scheme_handler(&mut self, entry: String)
        ensures
            final(self)@ == spec_insert_handler(old(self)@, entry@),
            old(self).wf() ==> final(self).wf(),
    {
        let ghost es = self@;
        proof {
            lemma_find_key(es, mime_key());
        }
        match self.get_mime_types() {
            Some(mut split) => {
                let ghost toks = split.deep_view();
                match self.find_mime_type(&split, "x-scheme-handler/") {
                    Some(position) => {
                        proof {
                            lemma_find_prefixed(toks, "x-scheme-handler/"@);
                        }
                        split.set(position, entry);
                        proof {
                            assert(split.deep_view() =~= toks.update(
                                position as int,
                                split@[position as int]@,
                            )) by {
                                assert(forall|j: int|
                                    0 <= j < split@.len() ==> split.deep_view()[j] == (
                                    #[trigger] split@[j])@);
                            }
                        }
                    },
                    None => {
                        split.push(entry);
                        proof {
                            assert(split.deep_view() =~= toks.push(split@.last()@)) by {
                                assert(forall|j: int|
                                    0 <= j < split@.len() ==> split.deep_view()[j] == (
                                    #[trigger] split@[j])@);
                            }
                        }
                    },
                }
                proof {
                    reveal_strlit(";");
                    assert(";"@ =~= seq![';']);
                }
                let joined = join_strs(&split, ";");
                proof {
                    if keys_unique(es) {
                        lemma_entries_insert_unique(es, mime_key(), joined@);
                    }
                }
                imap_insert(&mut self.data, String::from_str("MimeType"), joined);
            },
            None => {
                proof {
                    if keys_unique(es) {
                        lemma_entries_insert_unique(es, mime_key(), entry@);
                    }
                }
                imap_insert(&mut self.data, String::from_str("MimeType"), entry);
            },
        }
    }

    /// Remove the scheme-handler token from the `MimeType` field: a no-op
    /// when the field or the token is absent; when the token was the last
    /// one, the whole field is removed.
    pub fn delete_scheme_handler(&mut self)
        ensures
            final(self)@ == spec_delete_handler(old(self)@),
            old(self).wf() ==> final(self).wf(),
    {
        let ghost es = self@;
        proof {
            lemma_find_key(es, mime_key());
        }
        if let Some(mut split) = self.get_mime_types() {
            let ghost toks = split.deep_view();
            if let Some(position) = self.find_mime_type(&split, "x-scheme-handler/") {
                proof {
                    lemma_find_prefixed(toks, "x-scheme-handler/"@);
                }
                split.remove(position);
                proof {
                    assert(split.deep_view() =~= toks.remove(position as int)) by {
                        assert(forall|j: int|
                            0 <= j < split@.len() ==> split.deep_view()[j] == (
                            #[trigger] split@[j])@);
                    }
                }
                if split.len() > 0 {
                    proof {
                        reveal_strlit(";");
                        assert(";"@ =~= seq![';']);
                    }
                    let joined = join_strs(&split, ";");
                    proof {
                        if keys_unique(es) {
                            lemma_entries_insert_unique(es, mime_key(), joined@);
                        }
                    }
                    imap_insert(&mut self.data, String::from_str("MimeType"), joined);
                } else {
                    proof {
                        if keys_unique(es) {
                            lemma_entries_remove_unique(es, find_key(es, mime_key()));
                        }
                    }
                    imap_shift_remove(&mut self.data, "MimeType");
                }
            }
        }
    }

    /// Default the `Exec` field to the executable path with the ` %u`
    /// argument placeholder; an existing value is never overwritten.
    pub fn set_default_exec(&mut self, exe: &str)
        ensures
            final(self)@ == with_exec_default(old(self)@, exe@),
            old(self).wf() ==> final(self).wf(),
    {
        let ghost es = self@;
        if !self.contains_key("Exec") {
            let mut cmd = exe.to_owned();
            cmd.append(" %u");
            proof {
                if keys_unique(es) {
                    lemma_entries_insert_unique(es, "Exec"@, cmd@);
                }
            }
            imap_insert(&mut self.data, String::from_str("Exec"), cmd);
        }
    }
}

} // verus!

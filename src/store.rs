//! The credential store's operations, over the text the store holds.
use vstd::prelude::*;
use crate::codec::{
    decode_line, decode_spec, encode_line, encode_spec, is_word, lemma_decode_encode, lines_of,
    missing_username, split_content_lines, tokenize, tokens_of, slice_views, views, Credential,
    CredentialModel,
};
use crate::config::{AddParams, DeleteParams, GetParams};

verus! {

/// The names that `list` reports: the first token of each line that has one,
/// in store order.
pub open spec fn listed_names(ls: Seq<Seq<char>>) -> Seq<Seq<char>>
    decreases ls.len(),
{
    if ls.len() == 0 {
        Seq::empty()
    } else {
        let prev = listed_names(ls.drop_last());
        let t = tokens_of(ls.last());
        if t.len() > 0 {
            prev.push(t[0])
        } else {
            prev
        }
    }
}

/// A line holds a credential of the given name.
pub open spec fn holds_credential(l: Seq<char>, name: Seq<char>) -> bool {
    decode_spec(l) matches Some(c) && c.name == name
}

/// The credentials of the given name, in store order.
pub open spec fn matching_credentials(ls: Seq<Seq<char>>, name: Seq<char>) -> Seq<CredentialModel>
    decreases ls.len(),
{
    if ls.len() == 0 {
        Seq::empty()
    } else {
        let prev = matching_credentials(ls.drop_last(), name);
        if holds_credential(ls.last(), name) {
            prev.push(decode_spec(ls.last())->0)
        } else {
            prev
        }
    }
}

/// Lists the names of the stored records: the first token of every line that
/// has one, a record without a password included. An empty result means the
/// store holds no credentials.
pub fn list_credentials(content: &str) -> (r: Vec<String>)
    ensures
        views(r@) == listed_names(lines_of(content@)),
{
    let lines = split_content_lines(content);
    let ghost ls = lines_of(content@);
    let mut names: Vec<String> = Vec::new();
    let mut i: usize = 0;
    assert(ls.take(0) =~= Seq::<Seq<char>>::empty());
    assert(views(names@) =~= Seq::<Seq<char>>::empty());
    while i < lines.len()
        invariant
            slice_views(lines@) == ls,
            i <= lines.len(),
            views(names@) == listed_names(ls.take(i as int)),
        decreases lines.len() - i,
    {
        assert(ls.take(i as int + 1).drop_last() =~= ls.take(i as int));
        assert(lines[i as int]@ == ls[i as int]);
        let toks = tokenize(lines[i]);
        if toks.len() > 0 {
            let ghost prev = views(names@);
            let first = toks[0].clone();
            assert(first@ == tokens_of(ls[i as int])[0]);
            names.push(first);
            assert(views(names@) =~= prev.push(first@));
        }
        i = i + 1;
    }
    assert(ls.take(i as int) =~= ls);
    names
}

/// What each credential of a sequence holds.
pub open spec fn models(v: Seq<Credential>) -> Seq<CredentialModel> {
    v.map_values(|c: Credential| c@)
}

/// Looks up every credential of the given name, in store order. An empty
/// result means none is stored under that name.
pub fn get_credential(content: &str, params: &GetParams) -> (r: Vec<Credential>)
    ensures
        models(r@) == matching_credentials(lines_of(content@), params.0@),
{
    let lines = split_content_lines(content);
    let ghost ls = lines_of(content@);
    let ghost name = params.0@;
    let mut found: Vec<Credential> = Vec::new();
    let mut i: usize = 0;
    assert(ls.take(0) =~= Seq::<Seq<char>>::empty());
    assert(models(found@) =~= Seq::<CredentialModel>::empty());
    while i < lines.len()
        invariant
            slice_views(lines@) == ls,
            name == params.0@,
            i <= lines.len(),
            models(found@) == matching_credentials(ls.take(i as int), name),
        decreases lines.len() - i,
    {
        assert(ls.take(i as int + 1).drop_last() =~= ls.take(i as int));
        assert(lines[i as int]@ == ls[i as int]);
        match decode_line(lines[i]) {
            Some(c) => {
                if c.name == params.0 {
                    let ghost prev = models(found@);
                    let ghost cm = c@;
                    found.push(c);
                    assert(models(found@) =~= prev.push(cm));
                }
            },
            None => {},
        }
        i = i + 1;
    }
    assert(ls.take(i as int) =~= ls);
    found
}


/// The text `add` appends to the store: the credential's line and its
/// terminating `'\n'`. The store is not read, so a name may be stored twice.
pub fn add_credential(params: &AddParams) -> (r: String)
    ensures
        r@ == encode_spec(params.name@, params.username@, params.password@).push('\n'),
{
    let mut r = encode_line(params.name.as_str(), params.username.as_str(), params.password.as_str());
    r.append("\n");
    proof {
        reveal_strlit("\n");
        assert(r@ =~= encode_spec(params.name@, params.username@, params.password@).push('\n'));
    }
    r
}

/// A line is a record of the given name: it is not empty and its first token
/// is that name.
pub open spec fn is_record_of(l: Seq<char>, name: Seq<char>) -> bool {
    l.len() > 0 && tokens_of(l).len() > 0 && tokens_of(l)[0] == name
}

/// The lines `delete` keeps: every non-empty line whose first token is not the
/// name (lines with no token at all included), unchanged and in order.
pub open spec fn kept_lines(ls: Seq<Seq<char>>, name: Seq<char>) -> Seq<Seq<char>>
    decreases ls.len(),
{
    if ls.len() == 0 {
        Seq::empty()
    } else {
        let prev = kept_lines(ls.drop_last(), name);
        if ls.last().len() > 0 && !is_record_of(ls.last(), name) {
            prev.push(ls.last())
        } else {
            prev
        }
    }
}

/// Lines joined, each followed by `'\n'`.
pub open spec fn terminated(ls: Seq<Seq<char>>) -> Seq<char>
    decreases ls.len(),
{
    if ls.len() == 0 {
        Seq::empty()
    } else {
        terminated(ls.drop_last()) + ls.last() + seq!['\n']
    }
}

/// Some line of the store is a record of the given name.
pub open spec fn has_record(ls: Seq<Seq<char>>, name: Seq<char>) -> bool {
    exists|i: int| 0 <= i < ls.len() && is_record_of(#[trigger] ls[i], name)
}

/// The outcome of `delete`: the text that replaces the store, and whether any
/// record was removed.
#[derive(Clone, Debug, PartialEq, Eq)]
pub struct DeleteOutcome {
    pub content: String,
    pub found: bool,
}

/// Removes every record of the given name. The store is rewritten from the
/// lines kept, each followed by `'\n'`; `found` tells whether anything was
/// removed.
pub fn delete_credential(content: &str, params: &DeleteParams) -> (r: DeleteOutcome)
    ensures
        r.content@ == terminated(kept_lines(lines_of(content@), params.0@)),
        r.found == has_record(lines_of(content@), params.0@),
{
    let lines = split_content_lines(content);
    let ghost ls = lines_of(content@);
    let ghost name = params.0@;
    let mut updated = String::new();
    let mut found = false;
    let mut i: usize = 0;
    proof {
        reveal_strlit("\n");
    }
    assert(ls.take(0) =~= Seq::<Seq<char>>::empty());
    while i < lines.len()
        invariant
            slice_views(lines@) == ls,
            name == params.0@,
            i <= lines.len(),
            "\n"@ == seq!['\n'],
            updated@ == terminated(kept_lines(ls.take(i as int), name)),
            found == has_record(ls.take(i as int), name),
        decreases lines.len() - i,
    {
        let ghost before = ls.take(i as int);
        let ghost after = ls.take(i as int + 1);
        assert(after.drop_last() =~= before);
        assert(after.last() == ls[i as int]);
        assert(lines[i as int]@ == ls[i as int]);
        let line = lines[i];
        if line.unicode_len() == 0 {
            proof {
                if has_record(after, name) {
                    let j = choose|j: int| 0 <= j < after.len() && is_record_of(#[trigger] after[j], name);
                    assert(before[j] == after[j]);
                }
            }
        } else {
            let toks = tokenize(line);
            proof {
                if toks@.len() > 0 {
                    assert(toks@[0]@ == tokens_of(line@)[0]);
                }
            }
            if toks.len() < 1 || toks[0] != params.0 {
                let ghost prev = updated@;
                updated.append(line);
                updated.append("\n");
                assert(updated@ =~= prev + line@ + seq!['\n']);
                assert(!is_record_of(after.last(), name));
                let ghost kept = kept_lines(before, name);
                assert(kept_lines(after, name) == kept.push(line@));
                assert(kept.push(line@).drop_last() =~= kept);
                proof {
                    if has_record(after, name) {
                        let j = choose|j: int| 0 <= j < after.len() && is_record_of(#[trigger] after[j], name);
                        assert(before[j] == after[j]);
                    }
                }
            } else {
                found = true;
                assert(is_record_of(after[i as int], name));
            }
        }
        proof {
            if has_record(before, name) {
                let j = choose|j: int| 0 <= j < before.len() && is_record_of(#[trigger] before[j], name);
                assert(after[j] == before[j]);
            }
        }
        i = i + 1;
    }
    assert(ls.take(i as int) =~= ls);
    DeleteOutcome { content: updated, found }
}


/// A line without a line terminator in it.
pub open spec fn is_single_line(l: Seq<char>) -> bool {
    forall|k: int| 0 <= k < l.len() ==> #[trigger] l[k] != '\n'
}

/// A store in the shape the vault writes: every line non-empty and followed
/// by `'\n'` (the empty store included).
pub open spec fn is_canonical_store(s: Seq<char>) -> bool {
    let ls = lines_of(s);
    ls.last().len() == 0 && forall|i: int| 0 <= i < ls.len() - 1 ==> (#[trigger] ls[i]).len() > 0
}

proof fn lemma_lines_are_single(s: Seq<char>)
    ensures
        lines_of(s).len() >= 1,
        forall|i: int| 0 <= i < lines_of(s).len() ==> is_single_line(#[trigger] lines_of(s)[i]),
    decreases s.len(),
{
    if s.len() > 0 {
        let s0 = s.drop_last();
        lemma_lines_are_single(s0);
        let prev = lines_of(s0);
        let ls = lines_of(s);
        if s.last() != '\n' {
            let l = prev.last().push(s.last());
            assert(is_single_line(l)) by {
                assert forall|k: int| 0 <= k < l.len() implies #[trigger] l[k] != '\n' by {
                    if k < l.len() - 1 {
                        assert(l[k] == prev.last()[k]);
                    }
                }
            }
            assert forall|i: int| 0 <= i < ls.len() implies is_single_line(#[trigger] ls[i]) by {
                if i < ls.len() - 1 {
                    assert(ls[i] == prev[i]);
                }
            }
        } else {
            assert forall|i: int| 0 <= i < ls.len() implies is_single_line(#[trigger] ls[i]) by {
                if i < ls.len() - 1 {
                    assert(ls[i] == prev[i]);
                } else {
                    assert(ls[i] =~= Seq::<char>::empty());
                }
            }
        }
    }
}

proof fn lemma_lines_of_append(x: Seq<char>, t: Seq<char>)
    requires
        is_single_line(t),
    ensures
        lines_of(x + t) == lines_of(x).drop_last().push(lines_of(x).last() + t),
    decreases t.len(),
{
    lemma_lines_are_single(x);
    if t.len() == 0 {
        assert(x + t =~= x);
        assert(lines_of(x).last() + t =~= lines_of(x).last());
        assert(lines_of(x).drop_last().push(lines_of(x).last()) =~= lines_of(x));
    } else {
        let t0 = t.drop_last();
        assert(is_single_line(t0)) by {
            assert forall|k: int| 0 <= k < t0.len() implies #[trigger] t0[k] != '\n' by {
                assert(t0[k] == t[k]);
            }
        }
        lemma_lines_of_append(x, t0);
        assert((x + t).drop_last() =~= x + t0);
        assert((x + t).last() == t[t.len() - 1]);
        let prev = lines_of(x + t0);
        assert(prev.drop_last() =~= lines_of(x).drop_last());
        assert((lines_of(x).last() + t0).push(t.last()) =~= lines_of(x).last() + t);
        assert(prev.drop_last().push(prev.last().push(t.last())) =~= lines_of(x).drop_last().push(
            lines_of(x).last() + t,
        ));
    }
}

proof fn lemma_lines_of_terminated(ls: Seq<Seq<char>>)
    requires
        forall|i: int| 0 <= i < ls.len() ==> is_single_line(#[trigger] ls[i]),
    ensures
        lines_of(terminated(ls)) == ls.push(Seq::<char>::empty()),
    decreases ls.len(),
{
    if ls.len() == 0 {
        assert(lines_of(Seq::<char>::empty()) =~= seq![Seq::<char>::empty()]);
        assert(ls.push(Seq::<char>::empty()) =~= seq![Seq::<char>::empty()]);
    } else {
        let ls0 = ls.drop_last();
        assert forall|i: int| 0 <= i < ls0.len() implies is_single_line(#[trigger] ls0[i]) by {
            assert(ls0[i] == ls[i]);
        }
        lemma_lines_of_terminated(ls0);
        let x = terminated(ls0);
        let l = ls.last();
        assert(is_single_line(ls[ls.len() - 1]));
        lemma_lines_of_append(x, l);
        assert(ls0.push(Seq::<char>::empty()).drop_last() =~= ls0);
        assert(Seq::<char>::empty() + l =~= l);
        let y = x + l;
        let z = terminated(ls);
        assert(z =~= y.push('\n'));
        assert(z.drop_last() =~= y);
        assert(ls0.push(l) =~= ls);
    }
}

proof fn lemma_terminated_lines(s: Seq<char>)
    ensures
        s == terminated(lines_of(s).drop_last()) + lines_of(s).last(),
    decreases s.len(),
{
    if s.len() == 0 {
        assert(lines_of(s).drop_last() =~= Seq::<Seq<char>>::empty());
        assert(s =~= Seq::<char>::empty() + Seq::<char>::empty());
    } else {
        let s0 = s.drop_last();
        lemma_terminated_lines(s0);
        lemma_lines_are_single(s0);
        let prev = lines_of(s0);
        let ls = lines_of(s);
        if s.last() == '\n' {
            assert(ls.drop_last() =~= prev);
            assert(prev.drop_last().push(prev.last()) =~= prev);
            assert(terminated(prev) == terminated(prev.drop_last()) + prev.last() + seq!['\n']);
            assert(s =~= s0.push('\n'));
            assert(s =~= terminated(ls.drop_last()) + ls.last());
        } else {
            assert(ls.drop_last() =~= prev.drop_last());
            assert(s =~= s0.push(s.last()));
            assert(terminated(ls.drop_last()) + ls.last() =~= terminated(prev.drop_last())
                + prev.last().push(s.last()));
        }
    }
}

proof fn lemma_kept_lines_from(ls: Seq<Seq<char>>, name: Seq<char>)
    ensures
        forall|k: int|
            0 <= k < kept_lines(ls, name).len() ==> exists|j: int|
                0 <= j < ls.len() && #[trigger] kept_lines(ls, name)[k] == ls[j],
        forall|k: int|
            0 <= k < kept_lines(ls, name).len() ==> !is_record_of(
                #[trigger] kept_lines(ls, name)[k],
                name,
            ),
    decreases ls.len(),
{
    if ls.len() > 0 {
        let ls0 = ls.drop_last();
        lemma_kept_lines_from(ls0, name);
        let kept = kept_lines(ls, name);
        let prev = kept_lines(ls0, name);
        assert forall|k: int| 0 <= k < kept.len() implies exists|j: int|
            0 <= j < ls.len() && #[trigger] kept[k] == ls[j] by {
            if k < prev.len() {
                let j = choose|j: int| 0 <= j < ls0.len() && #[trigger] prev[k] == ls0[j];
                assert(kept[k] == ls[j]);
            } else {
                assert(kept[k] == ls[ls.len() - 1]);
            }
        }
        assert forall|k: int| 0 <= k < kept.len() implies !is_record_of(#[trigger] kept[k], name) by {
            if k < prev.len() {
                assert(kept[k] == prev[k]);
            }
        }
    }
}

/// An empty store holds no credentials: `list` reports no name and `get`
/// finds nothing, whatever the name asked for.
pub proof fn lemma_empty_store_lists_nothing(name: Seq<char>)
    ensures
        listed_names(lines_of(Seq::<char>::empty())) == Seq::<Seq<char>>::empty(),
        matching_credentials(lines_of(Seq::<char>::empty()), name) == Seq::<CredentialModel>::empty(),
{
    let ls = lines_of(Seq::<char>::empty());
    assert(ls == seq![Seq::<char>::empty()]);
    assert(ls.drop_last() =~= Seq::<Seq<char>>::empty());
    assert(ls.last() == Seq::<char>::empty());
    assert(tokens_of(ls.last()) == Seq::<Seq<char>>::empty());
    assert(listed_names(ls.drop_last()) == Seq::<Seq<char>>::empty());
    assert(matching_credentials(ls.drop_last(), name) == Seq::<CredentialModel>::empty());
    assert(decode_spec(ls.last()) is None);
}

/// The store that `delete` writes back holds exactly the lines it kept, in
/// their order and unchanged: every non-empty line whose first token is not
/// the deleted name.
pub proof fn lemma_delete_keeps_lines(content: Seq<char>, name: Seq<char>)
    ensures
        lines_of(terminated(kept_lines(lines_of(content), name))) == kept_lines(
            lines_of(content),
            name,
        ).push(Seq::<char>::empty()),
{
    let ls = lines_of(content);
    let kept = kept_lines(ls, name);
    lemma_lines_are_single(content);
    lemma_kept_lines_from(ls, name);
    assert forall|k: int| 0 <= k < kept.len() implies is_single_line(#[trigger] kept[k]) by {
        let j = choose|j: int| 0 <= j < ls.len() && #[trigger] kept[k] == ls[j];
    }
    lemma_lines_of_terminated(kept);
}


proof fn lemma_tokens_of_empty()
    ensures
        tokens_of(Seq::<char>::empty()) == Seq::<Seq<char>>::empty(),
{
}

proof fn lemma_no_record_no_match(ls: Seq<Seq<char>>, name: Seq<char>)
    requires
        !has_record(ls, name),
    ensures
        matching_credentials(ls, name) == Seq::<CredentialModel>::empty(),
        !listed_names(ls).contains(name),
    decreases ls.len(),
{
    if ls.len() > 0 {
        let ls0 = ls.drop_last();
        assert(!has_record(ls0, name)) by {
            if has_record(ls0, name) {
                let j = choose|j: int| 0 <= j < ls0.len() && is_record_of(#[trigger] ls0[j], name);
                assert(ls[j] == ls0[j]);
            }
        }
        lemma_no_record_no_match(ls0, name);
        lemma_tokens_of_empty();
        let l = ls.last();
        assert(!is_record_of(ls[ls.len() - 1], name));
        let prev = listed_names(ls0);
        let t = tokens_of(l);
        if t.len() > 0 {
            assert(l.len() > 0);
            assert(t[0] != name);
            assert forall|k: int| 0 <= k < prev.push(t[0]).len() implies prev.push(t[0])[k]
                != name by {
                if k < prev.len() {
                    assert(prev.push(t[0])[k] == prev[k]);
                }
            }
        }
    }
}

proof fn lemma_kept_all(ls: Seq<Seq<char>>, name: Seq<char>)
    requires
        !has_record(ls, name),
        forall|i: int| 0 <= i < ls.len() ==> (#[trigger] ls[i]).len() > 0,
    ensures
        kept_lines(ls, name) == ls,
    decreases ls.len(),
{
    if ls.len() > 0 {
        let ls0 = ls.drop_last();
        assert(!has_record(ls0, name)) by {
            if has_record(ls0, name) {
                let j = choose|j: int| 0 <= j < ls0.len() && is_record_of(#[trigger] ls0[j], name);
                assert(ls[j] == ls0[j]);
            }
        }
        assert forall|i: int| 0 <= i < ls0.len() implies (#[trigger] ls0[i]).len() > 0 by {
            assert(ls[i] == ls0[i]);
        }
        lemma_kept_all(ls0, name);
        assert(!is_record_of(ls[ls.len() - 1], name));
        assert(ls[ls.len() - 1].len() > 0);
        assert(ls0.push(ls.last()) =~= ls);
    }
}

/// After `delete`, no record of the deleted name is left: no line of the
/// rewritten store starts with it, `get` finds nothing under it and `list`
/// does not report it.
pub proof fn lemma_delete_removes_all(content: Seq<char>, name: Seq<char>)
    ensures
        !has_record(lines_of(terminated(kept_lines(lines_of(content), name))), name),
        matching_credentials(lines_of(terminated(kept_lines(lines_of(content), name))), name)
            == Seq::<CredentialModel>::empty(),
        !listed_names(lines_of(terminated(kept_lines(lines_of(content), name)))).contains(name),
{
    let kept = kept_lines(lines_of(content), name);
    lemma_delete_keeps_lines(content, name);
    lemma_kept_lines_from(lines_of(content), name);
    let nls = lines_of(terminated(kept));
    assert(!has_record(nls, name)) by {
        if has_record(nls, name) {
            let j = choose|j: int| 0 <= j < nls.len() && is_record_of(#[trigger] nls[j], name);
            if j < kept.len() {
                assert(nls[j] == kept[j]);
            } else {
                assert(nls[j] == Seq::<char>::empty());
            }
        }
    }
    lemma_no_record_no_match(nls, name);
}

proof fn lemma_kept_lines_match_others(ls: Seq<Seq<char>>, name: Seq<char>, other: Seq<char>)
    requires
        other != name,
    ensures
        matching_credentials(kept_lines(ls, name), other) == matching_credentials(ls, other),
    decreases ls.len(),
{
    if ls.len() > 0 {
        let ls0 = ls.drop_last();
        lemma_kept_lines_match_others(ls0, name, other);
        lemma_tokens_of_empty();
        let l = ls.last();
        let prev = kept_lines(ls0, name);
        if l.len() > 0 && !is_record_of(l, name) {
            assert(prev.push(l).drop_last() =~= prev);
        } else {
            assert(!holds_credential(l, other));
        }
    }
}

/// `delete` leaves the credentials of every other name as they were: `get`
/// on the rewritten store finds for any other name what it found before.
pub proof fn lemma_delete_preserves_others(content: Seq<char>, name: Seq<char>, other: Seq<char>)
    requires
        other != name,
    ensures
        matching_credentials(lines_of(terminated(kept_lines(lines_of(content), name))), other)
            == matching_credentials(lines_of(content), other),
{
    let kept = kept_lines(lines_of(content), name);
    lemma_delete_keeps_lines(content, name);
    lemma_kept_lines_match_others(lines_of(content), name, other);
    lemma_tokens_of_empty();
    assert(kept.push(Seq::<char>::empty()).drop_last() =~= kept);
    assert(!holds_credential(Seq::<char>::empty(), other));
}

/// A name with no record in the store: `get` finds nothing, and `delete`
/// hands back the store unchanged when it is in the shape the vault writes.
pub proof fn lemma_absent_name(content: Seq<char>, name: Seq<char>)
    requires
        !has_record(lines_of(content), name),
    ensures
        matching_credentials(lines_of(content), name) == Seq::<CredentialModel>::empty(),
        is_canonical_store(content) ==> terminated(kept_lines(lines_of(content), name)) == content,
{
    let ls = lines_of(content);
    lemma_no_record_no_match(ls, name);
    if is_canonical_store(content) {
        lemma_lines_are_single(content);
        let ls0 = ls.drop_last();
        assert(!has_record(ls0, name)) by {
            if has_record(ls0, name) {
                let j = choose|j: int| 0 <= j < ls0.len() && is_record_of(#[trigger] ls0[j], name);
                assert(ls[j] == ls0[j]);
            }
        }
        assert forall|i: int| 0 <= i < ls0.len() implies (#[trigger] ls0[i]).len() > 0 by {
            assert(ls[i] == ls0[i]);
        }
        lemma_kept_all(ls0, name);
        assert(ls.last().len() == 0);
        lemma_terminated_lines(content);
        assert(terminated(ls0) + ls.last() =~= terminated(ls0));
    }
}


/// Adding a credential to a store that ends in a line terminator (as every
/// store the vault writes does) makes `get` find, after what it found before,
/// that very credential, when its name and password are single tokens and its
/// username a single token or empty; an empty username reads back as `None`.
pub proof fn lemma_get_after_add(
    content: Seq<char>,
    name: Seq<char>,
    username: Seq<char>,
    password: Seq<char>,
)
    requires
        lines_of(content).last().len() == 0,
        is_word(name),
        is_word(password),
        username.len() == 0 || is_word(username),
    ensures
        matching_credentials(
            lines_of(content + encode_spec(name, username, password).push('\n')),
            name,
        ) == matching_credentials(lines_of(content), name).push(
            CredentialModel {
                name,
                username: if username.len() == 0 {
                    missing_username()
                } else {
                    username
                },
                password,
            },
        ),
{
    let e = encode_spec(name, username, password);
    let ls = lines_of(content);
    lemma_lines_are_single(content);
    lemma_tokens_of_empty();
    assert(is_single_line(e)) by {
        assert forall|k: int| 0 <= k < e.len() implies #[trigger] e[k] != '\n' by {
            let n = name.len() as int;
            let u = username.len() as int;
            if k < n {
                assert(e[k] == name[k]);
            } else if k == n {
                assert(e[k] == ' ');
            } else if k < n + 1 + u {
                assert(e[k] == username[k - n - 1]);
            } else if k == n + 1 + u {
                assert(e[k] == ' ');
            } else {
                assert(e[k] == password[k - n - 2 - u]);
            }
        }
    }
    lemma_lines_of_append(content, e);
    assert(ls.last() + e =~= e);
    let ce = content + e;
    let full = content + e.push('\n');
    assert(full =~= ce.push('\n'));
    assert(full.drop_last() =~= ce);
    let body = ls.drop_last();
    assert(lines_of(full) == body.push(e).push(Seq::<char>::empty()));
    assert(body.push(e).push(Seq::<char>::empty()).drop_last() =~= body.push(e));
    assert(body.push(e).drop_last() =~= body);
    lemma_decode_encode(name, username, password);
    assert(body.push(ls.last()) =~= ls);
    assert(!holds_credential(ls.last(), name));
    assert(!holds_credential(Seq::<char>::empty(), name));
    assert(holds_credential(e, name));
    let m = matching_credentials(body, name);
    assert(matching_credentials(ls, name) == m);
    assert(matching_credentials(body.push(e), name) == m.push(decode_spec(e)->0));
    assert(matching_credentials(body.push(e).push(Seq::<char>::empty()), name) == m.push(
        decode_spec(e)->0,
    ));
}

} // verus!

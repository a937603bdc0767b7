//! Line and record format of the store.
use vstd::prelude::*;

verus! {

/// The lines of a store: its text cut at every `'\n'`. The empty text is one
/// empty line, and a text that ends in `'\n'` ends in an empty line.
pub open spec fn lines_of(s: Seq<char>) -> Seq<Seq<char>>
    decreases s.len(),
{
    if s.len() == 0 {
        seq![Seq::empty()]
    } else {
        let prev = lines_of(s.drop_last());
        if s.last() == '\n' {
            prev.push(Seq::empty())
        } else {
            prev.drop_last().push(prev.last().push(s.last()))
        }
    }
}

/// The character views of a sequence of strings.
pub open spec fn views(v: Seq<String>) -> Seq<Seq<char>> {
    v.map_values(|s: String| s@)
}

/// The character views of a sequence of string slices.
pub open spec fn slice_views(v: Seq<&str>) -> Seq<Seq<char>> {
    v.map_values(|s: &str| s@)
}

/// A text always has at least one line.
pub proof fn lemma_lines_of_nonempty(s: Seq<char>)
    ensures
        lines_of(s).len() >= 1,
    decreases s.len(),
{
    if s.len() > 0 {
        lemma_lines_of_nonempty(s.drop_last());
    }
}

/// Splits a store's text into its lines at every `'\n'`; a `'\r'` before it
/// stays on the line.
pub fn split_content_lines(content: &str) -> (r: Vec<&str>)
    ensures
        slice_views(r@) == lines_of(content@),
{
    let ghost s = content@;
    let mut lines: Vec<&str> = Vec::new();
    let mut start: usize = 0;
    let mut i: usize = 0;
    let n = content.unicode_len();
    proof {
        assert(slice_views(lines@) =~= Seq::<Seq<char>>::empty());
        assert(s.take(0) =~= Seq::<char>::empty());
        assert(s.subrange(0, 0) =~= Seq::<char>::empty());
    }
    for c in it: content.chars()
        invariant
            s == content@,
            it.seq() == s,
            i == it.index(),
            n == s.len(),
            start <= i <= s.len(),
            slice_views(lines@).push(s.subrange(start as int, i as int)) == lines_of(s.take(i as int)),
    {
        assert(i < n);
        assert(c == s[i as int]);
        proof {
            lemma_lines_of_nonempty(s.take(i as int));
            assert(s.take(i as int + 1).drop_last() == s.take(i as int));
        }
        let ghost prev_lines = slice_views(lines@);
        if c == '\n' {
            let line = content.substring_char(start, i);
            lines.push(line);
            assert(slice_views(lines@) =~= prev_lines.push(line@));
            start = i + 1;
            assert(s.subrange(start as int, i as int + 1) =~= Seq::<char>::empty());
        } else {
            assert(s.subrange(start as int, i as int + 1) =~= s.subrange(start as int, i as int).push(c));
        }
        i = i + 1;
    }
    assert(s.take(i as int) == s);
    let last = content.substring_char(start, i);
    lines.push(last);
    lines
}


/// The whitespace that separates the fields of a record: space, tab, line
/// feed, form feed and carriage return.
pub open spec fn is_blank(c: char) -> bool {
    c == ' ' || c == '\t' || c == '\n' || c == '\x0C' || c == '\r'
}

/// The tokens of a line: its maximal runs of non-blank characters, in order.
pub open spec fn tokens_of(s: Seq<char>) -> Seq<Seq<char>>
    decreases s.len(),
{
    if s.len() == 0 {
        Seq::empty()
    } else {
        let prev = tokens_of(s.drop_last());
        let c = s.last();
        if is_blank(c) {
            prev
        } else if s.len() > 1 && !is_blank(s[s.len() - 2]) {
            prev.drop_last().push(prev.last().push(c))
        } else {
            prev.push(seq![c])
        }
    }
}

/// A text that ends in a non-blank character has at least one token.
pub proof fn lemma_tokens_of_ends_in_token(s: Seq<char>)
    requires
        s.len() > 0,
        !is_blank(s.last()),
    ensures
        tokens_of(s).len() > 0,
    decreases s.len(),
{
    if s.len() > 1 && !is_blank(s[s.len() - 2]) {
        lemma_tokens_of_ends_in_token(s.drop_last());
    }
}

fn is_blank_char(c: char) -> (r: bool)
    ensures
        r == is_blank(c),
{
    c == ' ' || c == '\t' || c == '\n' || c == '\x0C' || c == '\r'
}

/// Cuts a line into its whitespace-separated tokens; runs of whitespace count
/// as one separator, and leading or trailing whitespace gives no empty token.
pub fn tokenize(line: &str) -> (r: Vec<String>)
    ensures
        views(r@) == tokens_of(line@),
{
    let ghost s = line@;
    let mut toks: Vec<String> = Vec::new();
    let mut in_token = false;
    let mut start: usize = 0;
    let mut i: usize = 0;
    let n = line.unicode_len();
    proof {
        assert(views(toks@) =~= Seq::<Seq<char>>::empty());
        assert(s.take(0) =~= Seq::<char>::empty());
    }
    for c in it: line.chars()
        invariant
            s == line@,
            it.seq() == s,
            i == it.index(),
            n == s.len(),
            start <= i <= s.len(),
            in_token ==> start < i && !is_blank(s[i - 1]) && views(toks@).push(
                s.subrange(start as int, i as int),
            ) == tokens_of(s.take(i as int)),
            !in_token ==> (i == 0 || is_blank(s[i - 1])) && views(toks@) == tokens_of(
                s.take(i as int),
            ),
    {
        assert(i < n);
        assert(c == s[i as int]);
        let ghost t = s.take(i as int + 1);
        proof {
            assert(t.drop_last() == s.take(i as int));
            assert(t.last() == c);
            if i > 0 {
                assert(t[t.len() - 2] == s[i - 1]);
            }
            if in_token {
                lemma_tokens_of_ends_in_token(s.take(i as int));
            }
        }
        let blank = is_blank_char(c);
        if blank {
            if in_token {
                let tok = String::from_str(line.substring_char(start, i));
                let ghost prev = views(toks@);
                toks.push(tok);
                assert(views(toks@) =~= prev.push(tok@));
                in_token = false;
            }
        } else if in_token {
            assert(s.subrange(start as int, i as int + 1) =~= s.subrange(start as int, i as int).push(
                c,
            ));
        } else {
            start = i;
            in_token = true;
            assert(s.subrange(start as int, i as int + 1) =~= seq![c]);
        }
        i = i + 1;
    }
    assert(s.take(i as int) == s);
    if in_token {
        let tok = String::from_str(line.substring_char(start, i));
        let ghost prev = views(toks@);
        toks.push(tok);
        assert(views(toks@) =~= prev.push(tok@));
    }
    toks
}


/// One stored credential. A record written without a username reads back with
/// the username `None`.
#[derive(Clone, Debug, PartialEq, Eq)]
pub struct Credential {
    pub name: String,
    pub username: String,
    pub password: String,
}

/// What a credential holds, as character sequences.
pub struct CredentialModel {
    pub name: Seq<char>,
    pub username: Seq<char>,
    pub password: Seq<char>,
}

impl View for Credential {
    type V = CredentialModel;

    open spec fn view(&self) -> CredentialModel {
        CredentialModel { name: self.name@, username: self.username@, password: self.password@ }
    }
}

/// What an optional credential holds.
pub open spec fn model_of(o: Option<Credential>) -> Option<CredentialModel> {
    match o {
        Some(c) => Some(c@),
        None => None,
    }
}

/// The username reported for a record that stores none.
pub open spec fn missing_username() -> Seq<char> {
    seq!['N', 'o', 'n', 'e']
}

/// A non-empty run of characters none of which is blank: a value that stays
/// one token in a record.
pub open spec fn is_word(t: Seq<char>) -> bool {
    t.len() > 0 && forall|i: int| 0 <= i < t.len() ==> !is_blank(#[trigger] t[i])
}

/// The credential a line holds: under two tokens none; two tokens give a name
/// and a password; three or more a name, a username and a password, and the
/// tokens after the third are ignored.
pub open spec fn decode_spec(line: Seq<char>) -> Option<CredentialModel> {
    let t = tokens_of(line);
    if t.len() < 2 {
        None
    } else if t.len() == 2 {
        Some(CredentialModel { name: t[0], username: missing_username(), password: t[1] })
    } else {
        Some(CredentialModel { name: t[0], username: t[1], password: t[2] })
    }
}

/// The line that records a credential: its three fields joined by single
/// spaces, with an empty field for an absent username.
pub open spec fn encode_spec(name: Seq<char>, username: Seq<char>, password: Seq<char>) -> Seq<
    char,
> {
    name + seq![' '] + username + seq![' '] + password
}

fn missing_username_string() -> (r: String)
    ensures
        r@ == missing_username(),
{
    let r = String::from_str("None");
    proof {
        reveal_strlit("None");
        assert(r@ =~= missing_username());
    }
    r
}

/// Reads the credential a line holds, if it holds one.
pub fn decode_line(line: &str) -> (r: Option<Credential>)
    ensures
        model_of(r) == decode_spec(line@),
{
    let toks = tokenize(line);
    proof {
        assert(toks@.len() == tokens_of(line@).len());
        assert(forall|i: int| 0 <= i < toks@.len() ==> toks@[i]@ == #[trigger] tokens_of(line@)[i]);
    }
    if toks.len() < 2 {
        None
    } else if toks.len() == 2 {
        Some(
            Credential {
                name: toks[0].clone(),
                username: missing_username_string(),
                password: toks[1].clone(),
            },
        )
    } else {
        Some(
            Credential {
                name: toks[0].clone(),
                username: toks[1].clone(),
                password: toks[2].clone(),
            },
        )
    }
}

/// Writes the line that records a credential (without its line terminator).
pub fn encode_line(name: &str, username: &str, password: &str) -> (r: String)
    ensures
        r@ == encode_spec(name@, username@, password@),
{
    let mut r = String::from_str(name);
    r.append(" ");
    r.append(username);
    r.append(" ");
    r.append(password);
    proof {
        reveal_strlit(" ");
        assert(" "@ =~= seq![' ']);
    }
    r
}

proof fn lemma_tokens_of_append_blank(s: Seq<char>, b: char)
    requires
        is_blank(b),
    ensures
        tokens_of(s.push(b)) == tokens_of(s),
{
    assert(s.push(b).drop_last() =~= s);
}

proof fn lemma_tokens_of_append_word(s: Seq<char>, t: Seq<char>)
    requires
        is_word(t),
        s.len() == 0 || is_blank(s.last()),
    ensures
        tokens_of(s + t) == tokens_of(s).push(t),
    decreases t.len(),
{
    let st = s + t;
    let c = t.last();
    assert(!is_blank(t[t.len() - 1]));
    if t.len() == 1 {
        assert(st.drop_last() =~= s);
        assert(t =~= seq![c]);
        if s.len() > 0 {
            assert(st[st.len() - 2] == s.last());
        }
    } else {
        let t0 = t.drop_last();
        assert(is_word(t0)) by {
            assert forall|i: int| 0 <= i < t0.len() implies !is_blank(#[trigger] t0[i]) by {
                assert(t0[i] == t[i]);
            }
        }
        lemma_tokens_of_append_word(s, t0);
        assert(st.drop_last() =~= s + t0);
        assert(st[st.len() - 2] == t[t.len() - 2]);
        assert(t0.push(c) =~= t);
    }
}

/// Reading back the line written for a credential gives that credential,
/// when its name and password are single tokens and its username is a single
/// token or empty; an empty username reads back as `None`.
pub proof fn lemma_decode_encode(name: Seq<char>, username: Seq<char>, password: Seq<char>)
    requires
        is_word(name),
        is_word(password),
        username.len() == 0 || is_word(username),
    ensures
        decode_spec(encode_spec(name, username, password)) == Some(
            CredentialModel {
                name,
                username: if username.len() == 0 {
                    missing_username()
                } else {
                    username
                },
                password,
            },
        ),
{
    let e = Seq::<char>::empty();
    lemma_tokens_of_append_word(e, name);
    assert(e + name =~= name);
    let s1 = name.push(' ');
    lemma_tokens_of_append_blank(name, ' ');
    let s2 = s1 + username;
    if username.len() == 0 {
        assert(s2 =~= s1);
    } else {
        lemma_tokens_of_append_word(s1, username);
    }
    let s3 = s2.push(' ');
    lemma_tokens_of_append_blank(s2, ' ');
    lemma_tokens_of_append_word(s3, password);
    assert(s3 + password =~= encode_spec(name, username, password));
    let t = tokens_of(encode_spec(name, username, password));
    if username.len() == 0 {
        assert(t =~= seq![name, password]);
    } else {
        assert(t =~= seq![name, username, password]);
    }
}

} // verus!

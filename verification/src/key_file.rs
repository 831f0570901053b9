//! Private-key files: reading the one key line of a file, deriving its
//! authorized-key entry, and rendering the canonical file.

use vstd::prelude::*;

use crate::authorized::{
    comment_check, entry_text, is_ignored_line, is_valid_comment, lemma_valid_comment_checks,
    AuthorizedKey,
};
use crate::crypto::ed25519_public_key;
use crate::error::{is_invalid, Error};
use crate::keys::{is_plain_token, parse_private_token, private_token, public_token, PrivateKey};
use crate::text::{
    char_is_whitespace, chars_of, copy_range, has_prefix, is_whitespace, lines,
    push_str, split_lines, starts_with, string_of, trim, trim_start, trimmed, trimmed_start,
    lemma_lines_concat, lemma_lines_cons, lemma_trim_idempotent, lemma_trim_push_whitespace,
    lemma_trim_unchanged, strip_cr,
};
use crate::time::{lemma_rfc3339_text_shape, rfc3339_text, rfc3339_utc};

verus! {

/// The key lines of a file's lines: each line trimmed, blank lines and
/// `#` lines left out.
pub open spec fn key_lines(lines: Seq<Seq<char>>) -> Seq<Seq<char>>
    decreases lines.len(),
{
    if lines.len() == 0 {
        seq![]
    } else {
        let line = trim(lines.last());
        if is_ignored_line(line) {
            key_lines(lines.drop_last())
        } else {
            key_lines(lines.drop_last()).push(line)
        }
    }
}

/// What reading a private-key file (or a bare token) gives: the seed of its
/// single key line, or the message of the error.
pub open spec fn private_key_file(content: Seq<char>, origin: Seq<char>) -> Result<
    Seq<u8>,
    Seq<char>,
> {
    let keys = key_lines(lines(content));
    if keys.len() == 0 {
        Err("No authentication private key found in "@ + origin)
    } else if keys.len() > 1 {
        Err("Invalid authentication private key in "@ + origin + ": multiple key lines"@)
    } else {
        match parse_private_token(keys[0]) {
            Err(message) => Err("Invalid authentication private key in "@ + origin + ": "@
                + message),
            Ok(seed) => Ok(seed),
        }
    }
}

proof fn lemma_key_lines_grow(lines: Seq<Seq<char>>, n: int, m: int)
    requires
        0 <= n <= m <= lines.len(),
    ensures
        key_lines(lines.take(n)).len() <= key_lines(lines.take(m)).len(),
    decreases m - n,
{
    if m > n {
        lemma_key_lines_grow(lines, n, m - 1);
        assert(lines.take(m).drop_last() =~= lines.take(m - 1));
    }
}

proof fn lemma_key_lines_concat(a: Seq<Seq<char>>, b: Seq<Seq<char>>)
    ensures
        key_lines(a + b) == key_lines(a) + key_lines(b),
    decreases b.len(),
{
    if b.len() == 0 {
        assert(a + b =~= a);
        assert(key_lines(a) + key_lines(b) =~= key_lines(a));
    } else {
        lemma_key_lines_concat(a, b.drop_last());
        assert((a + b).drop_last() =~= a + b.drop_last());
        assert((a + b).last() == b.last());
        let line = trim(b.last());
        if !is_ignored_line(line) {
            assert(key_lines(a) + key_lines(b.drop_last()).push(line) =~= (key_lines(a)
                + key_lines(b.drop_last())).push(line));
        }
    }
}

/// A line whose trimmed text is empty or begins with `#` is never a key
/// line: inserted at a line boundary of a private-key file, it changes
/// nothing that reading the file gives, the seed or the error.
pub proof fn lemma_private_key_file_ignored_line(
    before: Seq<char>,
    after: Seq<char>,
    extra: Seq<char>,
    origin: Seq<char>,
)
    requires
        before.len() == 0 || before.last() == '\n',
        !extra.contains('\n'),
        trim(extra).len() == 0 || trim(extra)[0] == '#',
    ensures
        private_key_file(before + extra + seq!['\n'] + after, origin) == private_key_file(
            before + after,
            origin,
        ),
{
    lemma_lines_concat(before, after);
    let tail = extra + seq!['\n'] + after;
    lemma_lines_concat(before, tail);
    assert(before + extra + seq!['\n'] + after =~= before + tail);
    lemma_lines_cons(extra, after);
    let stripped = strip_cr(extra);
    if extra.len() > 0 && extra.last() == '\r' {
        assert(extra =~= stripped.push('\r'));
        lemma_trim_push_whitespace(stripped, '\r');
    }
    let head = lines(before);
    let rest = lines(after);
    lemma_key_lines_concat(head, seq![stripped] + rest);
    lemma_key_lines_concat(seq![stripped], rest);
    lemma_key_lines_concat(head, rest);
    assert(trim(stripped) == trim(extra));
    assert(is_ignored_line(trim(stripped)));
    assert(seq![stripped].drop_last() =~= Seq::<Seq<char>>::empty());
    assert(seq![stripped].last() == stripped);
    assert(key_lines(Seq::<Seq<char>>::empty()) =~= Seq::<Seq<char>>::empty());
    assert(key_lines(seq![stripped]) == key_lines(seq![stripped].drop_last()));
    assert(key_lines(seq![stripped]) =~= Seq::<Seq<char>>::empty());
    assert(key_lines(head + (seq![stripped] + rest)) =~= key_lines(head + rest));
}

/// Reads a bare private-key token or a complete generated key file: the
/// one line that is neither blank nor a `#` line, trimmed, is the token.
pub fn parse_private_key(content: &str, origin: &str) -> (r: Result<PrivateKey, Error>)
    ensures
        match r {
            Ok(key) => private_key_file(content@, origin@) == Ok::<Seq<u8>, Seq<char>>(key@),
            Err(e) => private_key_file(content@, origin@) matches Err(message) && is_invalid(
                &e,
                message,
            ),
        },
{
    let chars = chars_of(content);
    let ls = split_lines(&chars);
    let ghost all = lines(content@);
    let mut found: Option<Vec<char>> = None;
    let mut i: usize = 0;
    assert(all.take(0) =~= Seq::<Seq<char>>::empty());
    while i < ls.len()
        invariant
            i <= ls@.len(),
            all == lines(content@),
            ls@.len() == all.len(),
            forall|k: int| 0 <= k < ls@.len() ==> #[trigger] ls@[k]@ == all[k],
            match found {
                None => key_lines(all.take(i as int)).len() == 0,
                Some(line) => key_lines(all.take(i as int)) == seq![line@],
            },
        decreases ls@.len() - i,
    {
        proof {
            assert(all.take(i + 1).drop_last() =~= all.take(i as int));
            assert(all.take(i + 1).last() == ls@[i as int]@);
        }
        let line = trimmed(&ls[i]);
        if line.len() == 0 || line[0] == '#' {
        } else {
            if found.is_some() {
                let mut message: Vec<char> = Vec::new();
                push_str(&mut message, "Invalid authentication private key in ");
                push_str(&mut message, origin);
                push_str(&mut message, ": multiple key lines");
                proof {
                    lemma_key_lines_grow(all, i + 1, all.len() as int);
                    assert(all.take(all.len() as int) =~= all);
                }
                return Err(Error::Invalid(string_of(&message)));
            }
            found = Some(line);
        }
        i = i + 1;
    }
    assert(all.take(all.len() as int) =~= all);
    match found {
        None => {
            let mut message: Vec<char> = Vec::new();
            push_str(&mut message, "No authentication private key found in ");
            push_str(&mut message, origin);
            Err(Error::Invalid(string_of(&message)))
        },
        Some(line) => {
            let token = string_of(&line);
            match PrivateKey::parse_token(token.as_str()) {
                Ok(key) => Ok(key),
                Err(e) => {
                    let inner = match e {
                        Error::Invalid(message) => message,
                        _ => String::new(),
                    };
                    let mut message: Vec<char> = Vec::new();
                    push_str(&mut message, "Invalid authentication private key in ");
                    push_str(&mut message, origin);
                    push_str(&mut message, ": ");
                    push_str(&mut message, inner.as_str());
                    Err(Error::Invalid(string_of(&message)))
                },
            }
        },
    }
}

/// The comment that a `# Public key:` header line gives for the key whose
/// token is `token`: the line trimmed must start with `# Public key:`, then
/// (after whitespace) with `token`, then with a whitespace character; the
/// rest trimmed is the comment.
pub open spec fn header_line_comment(line: Seq<char>, token: Seq<char>) -> Option<Seq<char>> {
    let line = trim(line);
    let label = "# Public key:"@;
    if !has_prefix(line, label) {
        None
    } else {
        let header = trim_start(line.skip(label.len() as int));
        if !has_prefix(header, token) {
            None
        } else {
            let rest = header.skip(token.len() as int);
            if rest.len() == 0 || !is_whitespace(rest[0]) {
                None
            } else {
                Some(trim(rest.drop_first()))
            }
        }
    }
}

/// The comment of the first header line that names `token` (see
/// `header_line_comment`), if any.
pub open spec fn header_comment_of(lines: Seq<Seq<char>>, token: Seq<char>) -> Option<Seq<char>>
    decreases lines.len(),
{
    if lines.len() == 0 {
        None
    } else {
        match header_line_comment(lines[0], token) {
            Some(comment) => Some(comment),
            None => header_comment_of(lines.drop_first(), token),
        }
    }
}

/// `header_line_comment` of one line.
fn line_header_comment(line: &[char], token: &[char]) -> (r: Option<Vec<char>>)
    ensures
        match r {
            Some(comment) => header_line_comment(line@, token@) == Some(comment@),
            None => header_line_comment(line@, token@) is None,
        },
{
    let line = trimmed(line);
    let label = chars_of("# Public key:");
    if !starts_with(&line, &label) {
        return None;
    }
    let after = copy_range(&line, label.len(), line.len());
    assert(after@ =~= line@.skip(label@.len() as int));
    let header = trimmed_start(&after);
    if !starts_with(&header, token) {
        return None;
    }
    if header.len() == token.len() || !char_is_whitespace(header[token.len()]) {
        return None;
    }
    let rest = copy_range(&header, token.len() + 1, header.len());
    assert(rest@ =~= header@.skip(token@.len() as int).drop_first());
    Some(trimmed(&rest))
}

/// The comment of the first `# Public key:` header of the key `public_key`.
fn header_comment(lines: &Vec<Vec<char>>, token: &[char]) -> (r: Option<Vec<char>>)
    ensures
        match r {
            Some(comment) => header_comment_of(lines@.map_values(|l: Vec<char>| l@), token@)
                == Some(comment@),
            None => header_comment_of(lines@.map_values(|l: Vec<char>| l@), token@) is None,
        },
{
    let ghost all = lines@.map_values(|l: Vec<char>| l@);
    let mut i: usize = 0;
    assert(all.skip(0) =~= all);
    while i < lines.len()
        invariant
            i <= lines@.len(),
            all == lines@.map_values(|l: Vec<char>| l@),
            header_comment_of(all, token@) == header_comment_of(all.skip(i as int), token@),
        decreases lines@.len() - i,
    {
        let ghost rest = all.skip(i as int);
        assert(rest[0] == lines@[i as int]@);
        assert(rest.drop_first() =~= all.skip(i + 1));
        match line_header_comment(&lines[i], token) {
            Some(comment) => {
                return Some(comment);
            },
            None => {},
        }
        i = i + 1;
    }
    None
}

/// The comment supplied, if any, as a sequence of characters.
pub open spec fn supplied(comment: Option<&str>) -> Option<Seq<char>> {
    match comment {
        Some(c) => Some(c@),
        None => None,
    }
}

/// What deriving an authorized-key entry from a private-key file gives: the
/// public key of its seed with the supplied comment checked, or without one
/// the comment of a `# Public key:` header that names that key (empty when
/// there is none); or the message of the error.
pub open spec fn authorized_key_of_file(
    content: Seq<char>,
    origin: Seq<char>,
    comment: Option<Seq<char>>,
) -> Result<(Seq<u8>, Seq<char>), Seq<char>> {
    match private_key_file(content, origin) {
        Err(message) => Err(message),
        Ok(seed) => {
            let key = ed25519_public_key(seed);
            let chosen = match comment {
                Some(c) => c,
                None => match header_comment_of(lines(content), public_token(key)) {
                    Some(h) => h,
                    None => seq![],
                },
            };
            match comment_check(chosen) {
                Err(message) => Err(message),
                Ok(valid) => Ok((key, valid)),
            }
        },
    }
}

/// A supplied comment decides the entry whatever the file's headers say:
/// for a file that reads to a seed, the entry is that seed's public key
/// with the supplied comment trimmed, and the only error is a line break
/// left inside the trimmed comment.
pub proof fn lemma_supplied_comment_wins(
    content: Seq<char>,
    origin: Seq<char>,
    seed: Seq<u8>,
    comment: Seq<char>,
)
    requires
        private_key_file(content, origin) == Ok::<Seq<u8>, Seq<char>>(seed),
    ensures
        !trim(comment).contains('\n') && !trim(comment).contains('\r') ==> authorized_key_of_file(
            content,
            origin,
            Some(comment),
        ) == Ok::<(Seq<u8>, Seq<char>), Seq<char>>((ed25519_public_key(seed), trim(comment))),
        trim(comment).contains('\n') || trim(comment).contains('\r') ==> authorized_key_of_file(
            content,
            origin,
            Some(comment),
        ) == Err::<(Seq<u8>, Seq<char>), Seq<char>>(
            "Authorized-key comment must not contain line breaks"@,
        ),
{
}

/// Derives an authorized-key entry from a generated key file. A supplied
/// comment overrides the header comment. Without one, a matching
/// `# Public key:` header contributes its comment; a stale header is
/// ignored.
pub fn authorized_key_from_private_file(content: &str, origin: &str, comment: Option<&str>) -> (r:
    Result<AuthorizedKey, Error>)
    ensures
        match r {
            Ok(entry) => authorized_key_of_file(content@, origin@, supplied(comment)) == Ok::<
                (Seq<u8>, Seq<char>),
                Seq<char>,
            >(entry@),
            Err(e) => authorized_key_of_file(content@, origin@, supplied(comment)) matches Err(
                message,
            ) && is_invalid(&e, message),
        },
{
    let private_key = parse_private_key(content, origin)?;
    let public_key = private_key.public_key();
    let chosen: Vec<char> = match comment {
        Some(c) => chars_of(c),
        None => {
            let chars = chars_of(content);
            let ls = split_lines(&chars);
            proof {
                assert(ls@.map_values(|l: Vec<char>| l@) =~= lines(content@));
            }
            let token = public_key.to_token();
            let token_chars = chars_of(token.as_str());
            match header_comment(&ls, &token_chars) {
                Some(h) => h,
                None => Vec::new(),
            }
        },
    };
    AuthorizedKey::from_chars(public_key, &chosen)
}

/// The canonical key file: a title line, the creation time, the public
/// authorized-key entry, and the private token, each ending in a newline.
pub open spec fn key_file_text(created: Seq<char>, entry: Seq<char>, token: Seq<char>) -> Seq<
    char,
> {
    "# Ed25519 authentication key"@ + seq!['\n'] + "# Created: "@ + created + seq!['\n']
        + "# Public key: "@ + entry + seq!['\n'] + token + seq!['\n']
}

/// A file that holds nothing but a token, without headers, reads as that
/// token.
pub proof fn lemma_bare_token_file(token: Seq<char>, origin: Seq<char>)
    requires
        is_plain_token(token),
    ensures
        private_key_file(token, origin) == match parse_private_token(token) {
            Err(message) => Err("Invalid authentication private key in "@ + origin + ": "@
                + message),
            Ok(seed) => Ok::<Seq<u8>, Seq<char>>(seed),
        },
{
    lemma_plain_token_solid(token);
    lemma_solid_line(token);
    crate::text::lemma_lines_single(token);
    assert(seq![token].drop_last() =~= Seq::<Seq<char>>::empty());
    assert(seq![token].last() == token);
    assert(key_lines(Seq::<Seq<char>>::empty()) =~= Seq::<Seq<char>>::empty());
    assert(!is_ignored_line(trim(token)));
    assert(key_lines(seq![token]) =~= seq![token]);
}

/// A line of text for the key file: not empty, no line break, and its
/// first and last characters are not whitespace.
spec fn is_solid_line(line: Seq<char>) -> bool {
    &&& line.len() > 0
    &&& !line.contains('\n')
    &&& !is_whitespace(line[0])
    &&& !is_whitespace(line.last())
}

proof fn lemma_solid_line(line: Seq<char>)
    requires
        is_solid_line(line),
    ensures
        strip_cr(line) == line,
        trim(line) == line,
{
    lemma_trim_unchanged(line);
}

proof fn lemma_plain_token_solid(token: Seq<char>)
    requires
        is_plain_token(token),
    ensures
        is_solid_line(token),
{
    if token.contains('\n') {
        let i = choose|i: int| 0 <= i < token.len() && token[i] == '\n';
        assert(!is_whitespace(token[i]));
    }
    assert(!is_whitespace(token[token.len() - 1]));
}

/// The lines of a key file.
proof fn lemma_key_file_lines(l0: Seq<char>, l1: Seq<char>, l2: Seq<char>, l3: Seq<char>)
    requires
        is_solid_line(l0),
        is_solid_line(l1),
        is_solid_line(l2),
        is_solid_line(l3),
    ensures
        lines(l0 + seq!['\n'] + l1 + seq!['\n'] + l2 + seq!['\n'] + l3 + seq!['\n']) == seq![
            l0,
            l1,
            l2,
            l3,
        ],
{
    let nl = seq!['\n'];
    let e = Seq::<char>::empty();
    lemma_solid_line(l0);
    lemma_solid_line(l1);
    lemma_solid_line(l2);
    lemma_solid_line(l3);
    lemma_lines_cons(l3, e);
    assert(l3 + nl + e =~= l3 + nl);
    assert(lines(e) =~= Seq::<Seq<char>>::empty());
    lemma_lines_cons(l2, l3 + nl);
    assert(l2 + nl + (l3 + nl) =~= l2 + nl + l3 + nl);
    lemma_lines_cons(l1, l2 + nl + l3 + nl);
    assert(l1 + nl + (l2 + nl + l3 + nl) =~= l1 + nl + l2 + nl + l3 + nl);
    lemma_lines_cons(l0, l1 + nl + l2 + nl + l3 + nl);
    assert(l0 + nl + (l1 + nl + l2 + nl + l3 + nl) =~= l0 + nl + l1 + nl + l2 + nl + l3 + nl);
    assert(lines(l0 + nl + l1 + nl + l2 + nl + l3 + nl) =~= seq![l0, l1, l2, l3]);
}

/// A generated key file reads back: its one key line is the private
/// token, and its `# Public key:` header gives the entry's comment.
#[verifier::spinoff_prover]
#[verifier::rlimit(40)]
proof fn lemma_key_file_reads_back(
    seed: Seq<u8>,
    created: Seq<char>,
    comment: Seq<char>,
    origin: Seq<char>,
)
    requires
        is_plain_token(private_token(seed)),
        parse_private_token(private_token(seed)) == Ok::<Seq<u8>, Seq<char>>(seed),
        is_plain_token(public_token(ed25519_public_key(seed))),
        is_valid_comment(comment),
        created.len() > 0,
        !created.contains('\n'),
        !is_whitespace(created.last()),
    ensures
        ({
            let text = key_file_text(
                created,
                entry_text(ed25519_public_key(seed), comment),
                private_token(seed),
            );
            &&& private_key_file(text, origin) == Ok::<Seq<u8>, Seq<char>>(seed)
            &&& authorized_key_of_file(text, origin, None) == Ok::<
                (Seq<u8>, Seq<char>),
                Seq<char>,
            >((ed25519_public_key(seed), comment))
        }),
{
    reveal_strlit("# Ed25519 authentication key");
    reveal_strlit("# Created: ");
    reveal_strlit("# Public key: ");
    reveal_strlit("# Public key:");
    let key = ed25519_public_key(seed);
    let token = private_token(seed);
    let public = public_token(key);
    let entry = entry_text(key, comment);
    let l0 = "# Ed25519 authentication key"@;
    let l1 = "# Created: "@ + created;
    let l2 = "# Public key: "@ + entry;
    let l3 = token;
    lemma_trim_idempotent(comment);
    lemma_plain_token_solid(token);
    lemma_plain_token_solid(public);
    // The entry: the public token, then a space and the comment if any.
    assert(entry.take(public.len() as int) =~= public);
    if comment.len() > 0 {
        assert(entry.last() == comment.last());
    }
    assert(!entry.contains('\n')) by {
        if entry.contains('\n') {
            let i = choose|i: int| 0 <= i < entry.len() && entry[i] == '\n';
            if i < public.len() {
                assert(public[i] == '\n');
            } else {
                assert(comment[i - public.len() - 1] == '\n');
            }
        }
    }
    assert(entry[0] == public[0]);
    assert(!l1.contains('\n')) by {
        if l1.contains('\n') {
            let i = choose|i: int| 0 <= i < l1.len() && l1[i] == '\n';
            assert(created[i - 11] == '\n');
        }
    }
    assert(l1.last() == created.last());
    assert(!l2.contains('\n')) by {
        if l2.contains('\n') {
            let i = choose|i: int| 0 <= i < l2.len() && l2[i] == '\n';
            assert(entry[i - 14] == '\n');
        }
    }
    assert(l2.last() == entry.last());
    assert(!l0.contains('\n')) by {
        if l0.contains('\n') {
            let i = choose|i: int| 0 <= i < l0.len() && l0[i] == '\n';
        }
    }
    let text = key_file_text(created, entry, token);
    let nl = seq!['\n'];
    assert(text =~= l0 + nl + l1 + nl + l2 + nl + l3 + nl);
    lemma_key_file_lines(l0, l1, l2, l3);
    let ls = seq![l0, l1, l2, l3];
    lemma_solid_line(l0);
    lemma_solid_line(l1);
    lemma_solid_line(l2);
    lemma_solid_line(l3);
    // Only the token line is a key line.
    assert(ls.drop_last() =~= seq![l0, l1, l2]);
    assert(seq![l0, l1, l2].drop_last() =~= seq![l0, l1]);
    assert(seq![l0, l1].drop_last() =~= seq![l0]);
    assert(seq![l0].drop_last() =~= Seq::<Seq<char>>::empty());
    assert(l0[0] == '#');
    assert(l1[0] == '#');
    assert(l2[0] == '#');
    assert(key_lines(Seq::<Seq<char>>::empty()) =~= Seq::<Seq<char>>::empty());
    assert(key_lines(seq![l0]) =~= Seq::<Seq<char>>::empty());
    assert(key_lines(seq![l0, l1]) =~= Seq::<Seq<char>>::empty());
    assert(key_lines(seq![l0, l1, l2]) =~= Seq::<Seq<char>>::empty());
    assert(key_lines(ls) =~= seq![l3]);
    // The header of the public key gives the comment.
    let label = "# Public key:"@;
    assert(has_prefix(l2, label)) by {
        assert(l2.take(label.len() as int) =~= label);
    }
    let after = l2.skip(label.len() as int);
    assert(after =~= seq![' '] + entry);
    assert(after.drop_first() =~= entry);
    assert(is_whitespace(after[0]));
    assert(trim_start(after) == trim_start(entry));
    assert(trim_start(entry) == entry);
    assert(has_prefix(entry, public));
    let rest = entry.skip(public.len() as int);
    if comment.len() > 0 {
        assert(rest =~= seq![' '] + comment);
        assert(rest.drop_first() =~= comment);
        assert(header_line_comment(l2, public) == Some(comment));
    } else {
        assert(rest.len() == 0);
        assert(header_line_comment(l2, public) is None);
        assert(!has_prefix(l3, label)) by {
            if l3.len() >= label.len() {
                assert(l3.take(label.len() as int)[0] == l3[0]);
            }
        }
        assert(header_line_comment(l3, public) is None);
        assert(header_comment_of(seq![l3], public) is None) by {
            assert(seq![l3][0] == l3);
            assert(header_line_comment(seq![l3][0], public) is None);
            assert(seq![l3].drop_first() =~= Seq::<Seq<char>>::empty());
            assert(header_comment_of(Seq::<Seq<char>>::empty(), public) is None);
        }
    }
    assert(!has_prefix(l0, label)) by {
        assert(l0.take(label.len() as int)[2] != label[2]);
    }
    assert(!has_prefix(l1, label)) by {
        if l1.len() >= label.len() {
            assert(l1.take(label.len() as int)[2] == l1[2]);
        }
    }
    assert(header_line_comment(l0, public) is None);
    assert(header_line_comment(l1, public) is None);
    assert(ls.drop_first() =~= seq![l1, l2, l3]);
    assert(seq![l1, l2, l3].drop_first() =~= seq![l2, l3]);
    assert(seq![l2, l3].drop_first() =~= seq![l3]);
    lemma_valid_comment_checks(comment);
    assert(comment_check(Seq::<char>::empty()) == Ok::<Seq<char>, Seq<char>>(
        Seq::<char>::empty(),
    )) by {
        assert(trim(Seq::<char>::empty()) == Seq::<char>::empty());
    }
    assert(lines(text) == ls);
    assert(private_key_file(text, origin) == Ok::<Seq<u8>, Seq<char>>(seed));
    assert(header_comment_of(seq![l2, l3], public) == header_comment_of(ls, public)) by {
        assert(ls[0] == l0);
        assert(header_line_comment(ls[0], public) is None);
        assert(header_comment_of(ls, public) == header_comment_of(ls.drop_first(), public));
        assert(seq![l1, l2, l3][0] == l1);
        assert(header_line_comment(seq![l1, l2, l3][0], public) is None);
        assert(header_comment_of(seq![l1, l2, l3], public) == header_comment_of(
            seq![l1, l2, l3].drop_first(),
            public,
        ));
    }
    assert(seq![l2, l3][0] == l2);
    if comment.len() > 0 {
        assert(header_comment_of(ls, public) == Some(comment));
    } else {
        assert(header_comment_of(ls, public) is None);
        assert(comment =~= Seq::<char>::empty());
    }
}

impl PrivateKey {
    /// Renders the canonical key file with its public authorized-key entry,
    /// created `created` whole seconds after the Unix epoch. Read back, the
    /// file gives this key, and its entry with the comment.
    pub fn to_key_file(&self, comment: &str, created: u64) -> (r: Result<String, Error>)
        ensures
            match r {
                Ok(text) => comment_check(comment@) matches Ok(valid) && text@ == key_file_text(
                    rfc3339_text(created as nat),
                    entry_text(ed25519_public_key(self@), valid),
                    private_token(self@),
                ) && forall|origin: Seq<char>|
                    #![trigger private_key_file(text@, origin)]
                    #![trigger authorized_key_of_file(text@, origin, None)]
                    private_key_file(text@, origin) == Ok::<Seq<u8>, Seq<char>>(self@)
                        && authorized_key_of_file(text@, origin, None) == Ok::<
                        (Seq<u8>, Seq<char>),
                        Seq<char>,
                    >((ed25519_public_key(self@), valid)),
                Err(e) => comment_check(comment@) matches Err(message) && is_invalid(
                    &e,
                    message,
                ),
            },
    {
        let entry = self.authorized_key(comment)?;
        let created_text = rfc3339_utc(created);
        let entry_line = entry.to_string();
        let token = self.to_token();
        let mut v: Vec<char> = Vec::new();
        push_str(&mut v, "# Ed25519 authentication key");
        v.push('\n');
        push_str(&mut v, "# Created: ");
        push_str(&mut v, created_text.as_str());
        v.push('\n');
        push_str(&mut v, "# Public key: ");
        push_str(&mut v, entry_line.as_str());
        v.push('\n');
        push_str(&mut v, token.as_str());
        v.push('\n');
        assert(v@ =~= key_file_text(
            rfc3339_text(created as nat),
            entry_text(ed25519_public_key(self@), entry@.1),
            private_token(self@),
        ));
        proof {
            lemma_rfc3339_text_shape(created as nat);
            let text = rfc3339_text(created as nat);
            assert(text.last() == text[text.len() - 1]);
            assert(!text.contains('\n')) by {
                if text.contains('\n') {
                    let i = choose|i: int| 0 <= i < text.len() && text[i] == '\n';
                    assert(!is_whitespace(text[i]));
                }
            }
            assert forall|origin: Seq<char>|
                #![trigger private_key_file(v@, origin)]
                #![trigger authorized_key_of_file(v@, origin, None)]
                private_key_file(v@, origin) == Ok::<Seq<u8>, Seq<char>>(self@)
                    && authorized_key_of_file(v@, origin, None) == Ok::<
                    (Seq<u8>, Seq<char>),
                    Seq<char>,
                >((ed25519_public_key(self@), entry@.1)) by {
                lemma_key_file_reads_back(self@, text, entry@.1, origin);
            }
        }
        Ok(string_of(&v))
    }
}

} // verus!

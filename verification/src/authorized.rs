//! Authorized-key entries (a public key and its comment) and
//! authorized-keys documents.

use vstd::prelude::*;

use crate::error::{is_invalid, Error};
use crate::keys::{is_plain_token, parse_public_token, public_token, PrivateKey, PublicKey};
use crate::text::{
    chars_of, contains_char, copy_range, decimal, find_whitespace, lines,
    push_decimal, push_str, split_lines, string_of, trim, trimmed, whitespace_index, lemma_trim_idempotent,
    is_whitespace, lemma_lines_single, lemma_trim_after_whitespace, lemma_trim_unchanged,
    lemma_whitespace_index, lemma_lines_append, lemma_lines_concat, lemma_lines_cons,
    lemma_trim_push_whitespace, strip_cr,
};

verus! {

/// What validating a comment gives: the comment trimmed, or the error
/// message when a line break remains in it.
pub open spec fn comment_check(comment: Seq<char>) -> Result<Seq<char>, Seq<char>> {
    let trimmed = trim(comment);
    if trimmed.contains('\n') || trimmed.contains('\r') {
        Err("Authorized-key comment must not contain line breaks"@)
    } else {
        Ok(trimmed)
    }
}

/// A comment as entries hold it: trimmed, with no line break.
pub open spec fn is_valid_comment(comment: Seq<char>) -> bool {
    trim(comment) == comment && !comment.contains('\n') && !comment.contains('\r')
}

/// The authorized-keys line of a key and its comment: the public token,
/// then a space and the comment unless the comment is empty.
pub open spec fn entry_text(key: Seq<u8>, comment: Seq<char>) -> Seq<char> {
    if comment.len() == 0 {
        public_token(key)
    } else {
        public_token(key) + seq![' '] + comment
    }
}

/// A comment that passes the check comes out valid.
pub proof fn lemma_checked_comment_is_valid(comment: Seq<char>)
    ensures
        comment_check(comment) matches Ok(valid) ==> is_valid_comment(valid),
{
    lemma_trim_idempotent(comment);
}

/// A valid comment passes the check unchanged.
pub proof fn lemma_valid_comment_checks(comment: Seq<char>)
    requires
        is_valid_comment(comment),
    ensures
        comment_check(comment) == Ok::<Seq<char>, Seq<char>>(comment),
{
}

/// The line of an entry, read as an authorized-keys document, gives that
/// entry and nothing else.
pub proof fn lemma_entry_line_reads_back(key: Seq<u8>, comment: Seq<char>, origin: Seq<char>)
    requires
        is_plain_token(public_token(key)),
        parse_public_token(public_token(key)) == Ok::<Seq<u8>, Seq<char>>(key),
        is_valid_comment(comment),
    ensures
        authorized_keys_document(entry_text(key, comment), origin) == Ok::<
            Map<Seq<u8>, Seq<char>>,
            Seq<char>,
        >(Map::empty().insert(key, comment)),
{
    let token = public_token(key);
    let line = entry_text(key, comment);
    lemma_trim_idempotent(comment);
    assert(line.take(token.len() as int) =~= token);
    assert forall|i: int| 0 <= i < token.len() implies !is_whitespace(#[trigger] line[i]) by {
        assert(line[i] == token[i]);
    }
    if comment.len() == 0 {
        assert(line == token);
        assert(line.skip(token.len() as int) =~= Seq::<char>::empty());
        assert(trim(Seq::<char>::empty()) == Seq::<char>::empty());
        assert(comment =~= Seq::<char>::empty());
        assert(trim(line.skip(token.len() as int)) == comment);
    } else {
        assert(line[token.len() as int] == ' ');
        assert(line.skip(token.len() as int) =~= seq![' '] + comment);
        lemma_trim_after_whitespace(' ', comment);
        assert(trim(line.skip(token.len() as int)) == comment);
        assert(line.last() == comment.last());
    }
    assert(!line.contains('\n')) by {
        if line.contains('\n') {
            let i = choose|i: int| 0 <= i < line.len() && line[i] == '\n';
            if i >= token.len() + 1 {
                assert(comment[i - token.len() - 1] == '\n');
            }
        }
    }
    lemma_lines_single(line);
    lemma_trim_unchanged(line);
    lemma_whitespace_index(line, token.len() as int);
    lemma_valid_comment_checks(comment);
    assert(seq![line].drop_last() =~= Seq::<Seq<char>>::empty());
    assert(lines(line) == seq![line]);
    assert(trim(line) == line);
    assert(!is_ignored_line(line));
    assert(whitespace_index(line) == token.len());
    assert(parse_public_token(line.take(token.len() as int)) == Ok::<Seq<u8>, Seq<char>>(key));
    assert(comment_check(trim(line.skip(token.len() as int))) == Ok::<Seq<char>, Seq<char>>(
        comment,
    ));
    assert(entry_of_line(line) == Ok::<(Seq<u8>, Seq<char>), Seq<char>>((key, comment)));
    assert(authorized_keys_of_lines(Seq::<Seq<char>>::empty(), origin) == Ok::<
        Map<Seq<u8>, Seq<char>>,
        Seq<char>,
    >(Map::empty()));
}

/// Only the trimmed comment matters: whitespace around a comment, line
/// breaks included, never makes it fail, and a comment whose trim has no
/// line break is accepted as that trim.
pub proof fn lemma_comment_check_of_trim(comment: Seq<char>)
    ensures
        comment_check(comment) == comment_check(trim(comment)),
        !trim(comment).contains('\n') && !trim(comment).contains('\r') ==> comment_check(comment)
            == Ok::<Seq<char>, Seq<char>>(trim(comment)),
{
    lemma_trim_idempotent(comment);
}

/// The comment trimmed, or `Err` with the message of `comment_check`.
fn validate_comment(comment: &[char]) -> (r: Result<Vec<char>, String>)
    ensures
        match r {
            Ok(valid) => comment_check(comment@) == Ok::<Seq<char>, Seq<char>>(valid@),
            Err(message) => comment_check(comment@) == Err::<Seq<char>, Seq<char>>(message@),
        },
{
    let comment = trimmed(comment);
    if contains_char(&comment, '\n') || contains_char(&comment, '\r') {
        let mut message: Vec<char> = Vec::new();
        push_str(&mut message, "Authorized-key comment must not contain line breaks");
        return Err(string_of(&message));
    }
    Ok(comment)
}

/// A public key plus its authorized-keys comment.
#[derive(Debug, PartialEq, Eq)]
pub struct AuthorizedKey {
    public_key: PublicKey,
    comment: String,
}

impl View for AuthorizedKey {
    type V = (Seq<u8>, Seq<char>);

    closed spec fn view(&self) -> (Seq<u8>, Seq<char>) {
        (self.public_key@, self.comment@)
    }
}

impl AuthorizedKey {
    #[verifier::type_invariant]
    spec fn comment_is_valid(self) -> bool {
        is_valid_comment(self.comment@)
    }

    /// The entry of `public_key` with `comment` trimmed, or
    /// `Error::Invalid` when the comment holds a line break.
    pub fn new(public_key: PublicKey, comment: &str) -> (r: Result<Self, Error>)
        ensures
            match r {
                Ok(entry) => comment_check(comment@) == Ok::<Seq<char>, Seq<char>>(entry@.1)
                    && entry@.0 == public_key@,
                Err(e) => comment_check(comment@) matches Err(message) && is_invalid(
                    &e,
                    message,
                ),
            },
    {
        let chars = chars_of(comment);
        Self::from_chars(public_key, &chars)
    }

    pub(crate) fn from_chars(public_key: PublicKey, comment: &[char]) -> (r: Result<Self, Error>)
        ensures
            match r {
                Ok(entry) => comment_check(comment@) == Ok::<Seq<char>, Seq<char>>(entry@.1)
                    && entry@.0 == public_key@,
                Err(e) => comment_check(comment@) matches Err(message) && is_invalid(
                    &e,
                    message,
                ),
            },
    {
        match validate_comment(comment) {
            Ok(valid) => {
                proof {
                    lemma_checked_comment_is_valid(comment@);
                }
                let text = string_of(&valid);
                assert(is_valid_comment(text@));
                Ok(AuthorizedKey { public_key, comment: text })
            },
            Err(message) => Err(Error::Invalid(message)),
        }
    }

    /// The entry's public key.
    pub fn public_key(&self) -> (key: PublicKey)
        ensures
            key@ == self@.0,
    {
        self.public_key
    }

    /// The entry's comment, possibly empty.
    pub fn comment(&self) -> (comment: &str)
        ensures
            comment@ == self@.1,
            is_valid_comment(comment@),
    {
        proof {
            use_type_invariant(self);
        }
        self.comment.as_str()
    }

    /// The authorized-keys line of the entry (see `entry_text`); read as a
    /// document, the line gives back exactly this entry.
    pub fn to_string(&self) -> (line: String)
        ensures
            line@ == entry_text(self@.0, self@.1),
            is_plain_token(public_token(self@.0)),
            is_valid_comment(self@.1),
            forall|origin: Seq<char>|
                #[trigger] authorized_keys_document(line@, origin) == Ok::<
                    Map<Seq<u8>, Seq<char>>,
                    Seq<char>,
                >(Map::empty().insert(self@.0, self@.1)),
    {
        proof {
            use_type_invariant(self);
        }
        let mut v: Vec<char> = Vec::new();
        let token = self.public_key.to_token();
        push_str(&mut v, token.as_str());
        if !self.comment.as_str().is_empty() {
            v.push(' ');
            push_str(&mut v, self.comment.as_str());
        }
        proof {
            assert forall|origin: Seq<char>| #[trigger] authorized_keys_document(
                entry_text(self@.0, self@.1),
                origin,
            ) == Ok::<Map<Seq<u8>, Seq<char>>, Seq<char>>(
                Map::empty().insert(self@.0, self@.1),
            ) by {
                lemma_entry_line_reads_back(self@.0, self@.1, origin);
            }
        }
        string_of(&v)
    }
}

impl Clone for AuthorizedKey {
    fn clone(&self) -> (copy: Self)
        ensures
            copy@ == self@,
    {
        proof {
            use_type_invariant(self);
        }
        AuthorizedKey { public_key: self.public_key, comment: self.comment.clone() }
    }
}

impl PrivateKey {
    /// The entry of this key's public key with `comment`.
    pub fn authorized_key(&self, comment: &str) -> (r: Result<AuthorizedKey, Error>)
        ensures
            match r {
                Ok(entry) => comment_check(comment@) == Ok::<Seq<char>, Seq<char>>(entry@.1)
                    && entry@.0 == crate::crypto::ed25519_public_key(self@),
                Err(e) => comment_check(comment@) matches Err(message) && is_invalid(
                    &e,
                    message,
                ),
            },
    {
        AuthorizedKey::new(self.public_key(), comment)
    }
}

/// The map from key bytes to comments that a list of entries gives, later
/// entries replacing earlier ones of the same key.
pub open spec fn entries_map(entries: Seq<(Seq<u8>, Seq<char>)>) -> Map<Seq<u8>, Seq<char>>
    decreases entries.len(),
{
    if entries.len() == 0 {
        Map::empty()
    } else {
        entries_map(entries.drop_last()).insert(entries.last().0, entries.last().1)
    }
}

/// No key occurs twice in `entries`.
pub open spec fn distinct_keys(entries: Seq<(Seq<u8>, Seq<char>)>) -> bool {
    forall|i: int, j: int|
        0 <= i < j < entries.len() ==> #[trigger] entries[i].0 != #[trigger] entries[j].0
}

proof fn lemma_entries_map(entries: Seq<(Seq<u8>, Seq<char>)>)
    requires
        distinct_keys(entries),
    ensures
        entries_map(entries).dom().finite(),
        entries_map(entries).len() == entries.len(),
        forall|i: int|
            0 <= i < entries.len() ==> #[trigger] entries_map(entries).contains_key(entries[i].0)
                && entries_map(entries)[entries[i].0] == entries[i].1,
        forall|k: Seq<u8>|
            #[trigger] entries_map(entries).contains_key(k) ==> exists|i: int|
                0 <= i < entries.len() && entries[i].0 == k,
    decreases entries.len(),
{
    if entries.len() > 0 {
        let rest = entries.drop_last();
        assert(distinct_keys(rest));
        lemma_entries_map(rest);
        let last = entries.last();
        assert(!entries_map(rest).contains_key(last.0)) by {
            if entries_map(rest).contains_key(last.0) {
                let i = choose|i: int| 0 <= i < rest.len() && rest[i].0 == last.0;
                assert(entries[i].0 == entries[entries.len() - 1].0);
            }
        }
        assert forall|k: Seq<u8>| #[trigger] entries_map(entries).contains_key(k) implies exists|
            i: int,
        | 0 <= i < entries.len() && entries[i].0 == k by {
            if k != last.0 {
                let i = choose|i: int| 0 <= i < rest.len() && rest[i].0 == k;
                assert(entries[i].0 == k);
            } else {
                assert(entries[entries.len() - 1].0 == k);
            }
        }
        assert forall|i: int| 0 <= i < entries.len() implies #[trigger] entries_map(
            entries,
        ).contains_key(entries[i].0) && entries_map(entries)[entries[i].0] == entries[i].1 by {
            if i < entries.len() - 1 {
                assert(rest[i] == entries[i]);
                assert(entries[i].0 != last.0);
            }
        }
    }
}

/// Ed25519 public keys accepted by an application, each with its comment.
pub struct AuthorizedKeys {
    entries: Vec<AuthorizedKey>,
}

impl View for AuthorizedKeys {
    type V = Map<Seq<u8>, Seq<char>>;

    closed spec fn view(&self) -> Map<Seq<u8>, Seq<char>> {
        entries_map(self.pairs())
    }
}

impl AuthorizedKeys {
    spec fn pairs(self) -> Seq<(Seq<u8>, Seq<char>)> {
        self.entries@.map_values(|e: AuthorizedKey| e@)
    }

    #[verifier::type_invariant]
    spec fn keys_are_distinct(self) -> bool {
        distinct_keys(self.pairs())
    }

    /// No keys.
    pub fn new() -> (keys: Self)
        ensures
            keys@ == Map::<Seq<u8>, Seq<char>>::empty(),
    {
        let keys = AuthorizedKeys { entries: Vec::new() };
        assert(keys.pairs() =~= Seq::<(Seq<u8>, Seq<char>)>::empty());
        keys
    }

    /// Where `key` stands among the entries.
    fn position(&self, key: &PublicKey) -> (r: Option<usize>)
        ensures
            match r {
                Some(i) => i < self.entries@.len() && self.entries@[i as int]@.0 == key@,
                None => forall|i: int|
                    0 <= i < self.entries@.len() ==> self.entries@[i]@.0 != key@,
            },
    {
        let mut i: usize = 0;
        while i < self.entries.len()
            invariant
                i <= self.entries@.len(),
                forall|k: int| 0 <= k < i ==> self.entries@[k]@.0 != key@,
            decreases self.entries@.len() - i,
        {
            if same_key(&self.entries[i].public_key, key) {
                return Some(i);
            }
            i = i + 1;
        }
        None
    }

    /// The number of keys.
    pub fn len(&self) -> (n: usize)
        ensures
            self@.dom().finite(),
            n == self@.len(),
    {
        proof {
            use_type_invariant(self);
            lemma_entries_map(self.pairs());
        }
        self.entries.len()
    }

    /// The keys as debug output shows them: only how many there are.
    pub fn debug_text(&self) -> (text: String)
        ensures
            text@ == "AuthorizedKeys { key_count: "@ + decimal(self@.len()) + " }"@,
    {
        let n = self.len();
        let mut v: Vec<char> = Vec::new();
        push_str(&mut v, "AuthorizedKeys { key_count: ");
        push_decimal(&mut v, n as u64);
        push_str(&mut v, " }");
        string_of(&v)
    }

    /// Whether there are no keys.
    pub fn is_empty(&self) -> (b: bool)
        ensures
            b == (self@.len() == 0),
    {
        self.len() == 0
    }

    /// The comment of `public_key`, or `None` when it is not authorized.
    pub fn comment(&self, public_key: &PublicKey) -> (r: Option<&str>)
        ensures
            match r {
                Some(comment) => self@.contains_key(public_key@) && comment@ == self@[public_key@],
                None => !self@.contains_key(public_key@),
            },
    {
        proof {
            use_type_invariant(self);
            lemma_entries_map(self.pairs());
        }
        match self.position(public_key) {
            Some(i) => {
                assert(self.pairs()[i as int] == self.entries@[i as int]@);
                assert(entries_map(self.pairs()).contains_key(self.pairs()[i as int].0));
                Some(self.entries[i].comment.as_str())
            },
            None => {
                assert forall|k: int| 0 <= k < self.pairs().len() implies self.pairs()[k].0
                    != public_key@ by {
                    assert(self.pairs()[k] == self.entries@[k]@);
                }
                None
            },
        }
    }

    /// Whether `public_key` is authorized.
    pub fn contains(&self, public_key: &PublicKey) -> (b: bool)
        ensures
            b == self@.contains_key(public_key@),
    {
        self.comment(public_key).is_some()
    }

    /// The entries, each key once, in no particular order.
    pub fn iter(&self) -> (entries: Vec<AuthorizedKey>)
        ensures
            entries@.len() == self@.len(),
            forall|i: int|
                0 <= i < entries@.len() ==> self@.contains_key(#[trigger] entries@[i]@.0)
                    && self@[entries@[i]@.0] == entries@[i]@.1,
            forall|i: int, j: int|
                0 <= i < j < entries@.len() ==> #[trigger] entries@[i]@.0
                    != #[trigger] entries@[j]@.0,
            forall|key: Seq<u8>|
                #[trigger] self@.contains_key(key) ==> exists|i: int|
                    0 <= i < entries@.len() && entries@[i]@.0 == key,
            self@.dom().finite(),
    {
        proof {
            use_type_invariant(self);
            lemma_entries_map(self.pairs());
        }
        let mut out: Vec<AuthorizedKey> = Vec::new();
        let mut i: usize = 0;
        while i < self.entries.len()
            invariant
                i <= self.entries@.len(),
                out@.len() == i,
                forall|k: int| 0 <= k < i ==> #[trigger] out@[k]@ == self.entries@[k]@,
            decreases self.entries@.len() - i,
        {
            out.push(self.entries[i].clone());
            i = i + 1;
        }
        assert forall|k: int| 0 <= k < out@.len() implies self@.contains_key(
            #[trigger] out@[k]@.0,
        ) && self@[out@[k]@.0] == out@[k]@.1 by {
            assert(out@[k]@ == self.pairs()[k]);
        }
        assert forall|a: int, b: int| 0 <= a < b < out@.len() implies #[trigger] out@[a]@.0
            != #[trigger] out@[b]@.0 by {
            assert(out@[a]@ == self.pairs()[a]);
            assert(out@[b]@ == self.pairs()[b]);
        }
        assert forall|key: Seq<u8>| #[trigger] self@.contains_key(key) implies exists|i: int|
            0 <= i < out@.len() && out@[i]@.0 == key by {
            let i = choose|i: int| 0 <= i < self.pairs().len() && self.pairs()[i].0 == key;
            assert(out@[i]@ == self.pairs()[i]);
        }
        out
    }

    /// Authorizes `key` with `comment`, replacing its earlier comment.
    fn insert(&mut self, entry: AuthorizedKey)
        ensures
            final(self)@ == old(self)@.insert(entry@.0, entry@.1),
    {
        proof {
            use_type_invariant(&*self);
        }
        let ghost before = self.pairs();
        match self.position(&entry.public_key) {
            Some(i) => {
                let mut entries: Vec<AuthorizedKey> = Vec::new();
                core::mem::swap(&mut entries, &mut self.entries);
                proof {
                    assert(before =~= entries@.map_values(|e: AuthorizedKey| e@));
                }
                entries.set(i, entry);
                let ghost after = entries@.map_values(|e: AuthorizedKey| e@);
                proof {
                    assert(after =~= before.update(i as int, entry@));
                    lemma_replace_entry(before, i as int, entry@);
                }
                self.entries = entries;
            },
            None => {
                let mut entries: Vec<AuthorizedKey> = Vec::new();
                core::mem::swap(&mut entries, &mut self.entries);
                entries.push(entry);
                proof {
                    let after = entries@.map_values(|e: AuthorizedKey| e@);
                    assert(after =~= before.push(entry@));
                    assert(after.drop_last() =~= before);
                }
                self.entries = entries;
            },
        }
    }
}

impl Clone for AuthorizedKeys {
    fn clone(&self) -> (copy: Self)
        ensures
            copy@ == self@,
    {
        proof {
            use_type_invariant(self);
        }
        let mut entries: Vec<AuthorizedKey> = Vec::new();
        let mut i: usize = 0;
        while i < self.entries.len()
            invariant
                i <= self.entries@.len(),
                entries@.len() == i,
                forall|k: int| 0 <= k < i ==> #[trigger] entries@[k]@ == self.entries@[k]@,
            decreases self.entries@.len() - i,
        {
            entries.push(self.entries[i].clone());
            i = i + 1;
        }
        assert(entries@.map_values(|e: AuthorizedKey| e@) =~= self.pairs());
        let copy = AuthorizedKeys { entries };
        copy
    }
}

impl core::default::Default for AuthorizedKeys {
    fn default() -> (keys: Self)
        ensures
            keys@ == Map::<Seq<u8>, Seq<char>>::empty(),
    {
        Self::new()
    }
}

/// Replacing the comment of a key that occurs once gives the same map as
/// inserting the new comment.
proof fn lemma_replace_entry(entries: Seq<(Seq<u8>, Seq<char>)>, i: int, e: (Seq<u8>, Seq<char>))
    requires
        distinct_keys(entries),
        0 <= i < entries.len(),
        entries[i].0 == e.0,
    ensures
        distinct_keys(entries.update(i, e)),
        entries_map(entries.update(i, e)) == entries_map(entries).insert(e.0, e.1),
{
    let updated = entries.update(i, e);
    assert(distinct_keys(updated)) by {
        assert forall|a: int, b: int| 0 <= a < b < updated.len() implies #[trigger] updated[a].0
            != #[trigger] updated[b].0 by {
            assert(entries[a].0 != entries[b].0);
        }
    }
    lemma_entries_map(entries);
    lemma_entries_map(updated);
    let m1 = entries_map(updated);
    let m2 = entries_map(entries).insert(e.0, e.1);
    assert forall|k: Seq<u8>| m1.contains_key(k) <==> m2.contains_key(k) by {
        assert(updated[i].0 == e.0);
        assert(m1.contains_key(updated[i].0));
        if m1.contains_key(k) {
            let j = choose|j: int| 0 <= j < updated.len() && updated[j].0 == k;
            if j != i {
                assert(updated[j] == entries[j]);
                assert(entries_map(entries).contains_key(entries[j].0));
            }
        }
        if m2.contains_key(k) && k != e.0 {
            let j = choose|j: int| 0 <= j < entries.len() && entries[j].0 == k;
            assert(j != i);
            assert(updated[j] == entries[j]);
            assert(m1.contains_key(updated[j].0));
        }
    }
    assert forall|k: Seq<u8>| m1.contains_key(k) implies m1[k] == m2[k] by {
        let j = choose|j: int| 0 <= j < updated.len() && updated[j].0 == k;
        if j != i {
            assert(entries[j] == updated[j]);
            assert(entries[j].0 != e.0);
        }
    }
    assert(m1 =~= m2);
}

/// Whether two keys have the same bytes.
fn same_key(a: &PublicKey, b: &PublicKey) -> (same: bool)
    ensures
        same == (a@ == b@),
{
    let x = a.as_bytes();
    let y = b.as_bytes();
    let mut i: usize = 0;
    while i < 32
        invariant
            i <= 32,
            x@ == a@,
            y@ == b@,
            x@.len() == 32,
            y@.len() == 32,
            forall|k: int| 0 <= k < i ==> x@[k] == y@[k],
        decreases 32 - i,
    {
        if x[i] != y[i] {
            assert(x@[i as int] != y@[i as int]);
            assert(a@[i as int] != b@[i as int]);
            return false;
        }
        i = i + 1;
    }
    assert(x@ =~= y@);
    true
}

/// A document line (already trimmed) that holds no entry: blank, or a
/// comment starting with `#`.
pub open spec fn is_ignored_line(line: Seq<char>) -> bool {
    line.len() == 0 || line[0] == '#'
}

/// The key and comment of a trimmed entry line: the first
/// whitespace-delimited field is the token, the rest trimmed is the
/// comment; or the message of the error.
pub open spec fn entry_of_line(line: Seq<char>) -> Result<(Seq<u8>, Seq<char>), Seq<char>> {
    let end = whitespace_index(line) as int;
    match parse_public_token(line.take(end)) {
        Err(message) => Err(message),
        Ok(key) => match comment_check(trim(line.skip(end))) {
            Err(message) => Err(message),
            Ok(comment) => Ok((key, comment)),
        },
    }
}

/// The message of an error on line `number` of the document `origin`.
pub open spec fn line_error(origin: Seq<char>, number: nat, message: Seq<char>) -> Seq<char> {
    "Invalid authorized key at "@ + origin + ":"@ + decimal(number) + ": "@ + message
}

/// The keys of a document's lines: each entry line, trimmed, adds its key
/// and comment, a later line of the same key replacing an earlier one; the
/// first line in error gives the error.
pub open spec fn authorized_keys_of_lines(lines: Seq<Seq<char>>, origin: Seq<char>) -> Result<
    Map<Seq<u8>, Seq<char>>,
    Seq<char>,
>
    decreases lines.len(),
{
    if lines.len() == 0 {
        Ok(Map::empty())
    } else {
        match authorized_keys_of_lines(lines.drop_last(), origin) {
            Err(message) => Err(message),
            Ok(keys) => {
                let line = trim(lines.last());
                if is_ignored_line(line) {
                    Ok(keys)
                } else {
                    match entry_of_line(line) {
                        Err(message) => Err(line_error(origin, lines.len(), message)),
                        Ok(entry) => Ok(keys.insert(entry.0, entry.1)),
                    }
                }
            },
        }
    }
}

/// What reading the authorized-keys document `content` gives.
pub open spec fn authorized_keys_document(content: Seq<char>, origin: Seq<char>) -> Result<
    Map<Seq<u8>, Seq<char>>,
    Seq<char>,
> {
    authorized_keys_of_lines(lines(content), origin)
}

/// Once a line is in error, the lines after it do not change the result.
proof fn lemma_error_persists(lines: Seq<Seq<char>>, origin: Seq<char>, n: int, m: int)
    requires
        0 <= n <= m <= lines.len(),
        authorized_keys_of_lines(lines.take(n), origin) is Err,
    ensures
        authorized_keys_of_lines(lines.take(m), origin) == authorized_keys_of_lines(
            lines.take(n),
            origin,
        ),
    decreases m - n,
{
    if m > n {
        lemma_error_persists(lines, origin, n, m - 1);
        assert(lines.take(m).drop_last() =~= lines.take(m - 1));
    }
}

/// A document is read line by line: appending a line to a document that
/// ends with a line break (or is empty) leaves the result of the document,
/// then ignores the new line if it is blank or a `#` line, and otherwise
/// adds its entry, replacing an earlier comment of the same key, or fails
/// at its line number.
pub proof fn lemma_document_append_line(doc: Seq<char>, line: Seq<char>, origin: Seq<char>)
    requires
        doc.len() == 0 || doc.last() == '\n',
        line.len() > 0,
        !line.contains('\n'),
    ensures
        authorized_keys_document(doc + line, origin) == match authorized_keys_document(
            doc,
            origin,
        ) {
            Err(message) => Err(message),
            Ok(keys) => if is_ignored_line(trim(line)) {
                Ok(keys)
            } else {
                match entry_of_line(trim(line)) {
                    Err(message) => Err(line_error(origin, lines(doc).len() + 1, message)),
                    Ok(entry) => Ok(keys.insert(entry.0, entry.1)),
                }
            },
        },
{
    lemma_lines_append(doc, line);
    assert(lines(doc).push(line).drop_last() =~= lines(doc));
}

/// A line a document accepts: one it ignores, or an entry line that reads.
pub open spec fn line_is_accepted(line: Seq<char>) -> bool {
    is_ignored_line(trim(line)) || entry_of_line(trim(line)) is Ok
}

/// The entry that line `i` holds, if it is an entry line that reads.
pub open spec fn entry_at(lines: Seq<Seq<char>>, i: int) -> Option<(Seq<u8>, Seq<char>)> {
    let line = trim(lines[i]);
    if is_ignored_line(line) {
        None
    } else {
        match entry_of_line(line) {
            Ok(entry) => Some(entry),
            Err(_) => None,
        }
    }
}

/// Line `i` holds an entry of `key`.
pub open spec fn has_entry_of(lines: Seq<Seq<char>>, i: int, key: Seq<u8>) -> bool {
    entry_at(lines, i) matches Some(entry) && entry.0 == key
}

/// The message of the error of a line that is not accepted.
pub open spec fn line_failure(line: Seq<char>) -> Seq<char> {
    match entry_of_line(trim(line)) {
        Err(failure) => failure,
        Ok(_) => seq![],
    }
}

/// A document reads exactly when every line is accepted; otherwise the
/// error names the first line that is not, with its number and message.
pub proof fn lemma_document_lines_accepted(lines: Seq<Seq<char>>, origin: Seq<char>)
    ensures
        authorized_keys_of_lines(lines, origin) is Ok <==> forall|i: int|
            0 <= i < lines.len() ==> line_is_accepted(#[trigger] lines[i]),
        authorized_keys_of_lines(lines, origin) matches Err(message) ==> exists|i: int|
            0 <= i < lines.len() && (forall|j: int|
                0 <= j < i ==> line_is_accepted(#[trigger] lines[j])) && !line_is_accepted(
                lines[i],
            ) && message == "Invalid authorized key at "@ + origin + ":"@ + decimal((i + 1) as nat) + ": "@
                + line_failure(lines[i]),
    decreases lines.len(),
{
    if lines.len() > 0 {
        let rest = lines.drop_last();
        lemma_document_lines_accepted(rest, origin);
        assert forall|i: int| 0 <= i < rest.len() implies rest[i] == lines[i] by {}
        let n = lines.len() - 1;
        match authorized_keys_of_lines(rest, origin) {
            Err(message) => {
                let i = choose|i: int|
                    0 <= i < rest.len() && (forall|j: int|
                        0 <= j < i ==> line_is_accepted(#[trigger] rest[j])) && !line_is_accepted(
                        rest[i],
                    ) && message == "Invalid authorized key at "@ + origin + ":"@ + decimal((i + 1) as nat)
                        + ": "@ + line_failure(rest[i]);
                assert(!line_is_accepted(lines[i]));
                assert forall|j: int| 0 <= j < i implies line_is_accepted(#[trigger] lines[j]) by {
                    assert(rest[j] == lines[j]);
                }
            },
            Ok(_) => {
                assert(lines.last() == lines[n]);
                if !line_is_accepted(lines[n]) {
                    assert forall|j: int| 0 <= j < n implies line_is_accepted(
                        #[trigger] lines[j],
                    ) by {
                        assert(rest[j] == lines[j]);
                    }
                } else {
                    assert forall|i: int| 0 <= i < lines.len() implies line_is_accepted(
                        #[trigger] lines[i],
                    ) by {
                        if i < n {
                            assert(rest[i] == lines[i]);
                        }
                    }
                }
            },
        }
    }
}

/// The keys a document gives are exactly the keys of its entry lines, and
/// each maps to the comment of the last line that names it.
pub proof fn lemma_document_keys(lines: Seq<Seq<char>>, origin: Seq<char>)
    ensures
        authorized_keys_of_lines(lines, origin) matches Ok(keys) ==> {
            &&& keys.dom().finite()
            &&& forall|key: Seq<u8>|
                #[trigger] keys.contains_key(key) <==> exists|i: int|
                    0 <= i < lines.len() && has_entry_of(lines, i, key)
            &&& forall|i: int|
                0 <= i < lines.len() && #[trigger] entry_at(lines, i) is Some && (forall|j: int|
                    i < j < lines.len() ==> !has_entry_of(lines, j, entry_at(lines, i)->Some_0.0))
                    ==> keys[entry_at(lines, i)->Some_0.0] == entry_at(lines, i)->Some_0.1
        },
    decreases lines.len(),
{
    if lines.len() > 0 {
        let rest = lines.drop_last();
        let n = lines.len() - 1;
        lemma_document_keys(rest, origin);
        assert forall|i: int| 0 <= i < rest.len() implies #[trigger] entry_at(rest, i)
            == entry_at(lines, i) by {
            assert(rest[i] == lines[i]);
        }
        assert(lines.last() == lines[n]);
        match authorized_keys_of_lines(rest, origin) {
            Err(_) => {},
            Ok(before) => {
                if let Ok(keys) = authorized_keys_of_lines(lines, origin) {
                    assert forall|key: Seq<u8>| #[trigger] keys.contains_key(key) <==> exists|i: int|
                        0 <= i < lines.len() && has_entry_of(lines, i, key) by {
                        if keys.contains_key(key) {
                            if has_entry_of(lines, n, key) {
                            } else {
                                assert(before.contains_key(key));
                                let i = choose|i: int| 0 <= i < rest.len() && has_entry_of(rest, i, key);
                                assert(has_entry_of(lines, i, key));
                            }
                        }
                        if exists|i: int| 0 <= i < lines.len() && has_entry_of(lines, i, key) {
                            let i = choose|i: int| 0 <= i < lines.len() && has_entry_of(lines, i, key);
                            if i < n {
                                assert(has_entry_of(rest, i, key));
                                assert(before.contains_key(key));
                            }
                        }
                    }
                    assert forall|i: int|
                        0 <= i < lines.len() && #[trigger] entry_at(lines, i) is Some && (forall|
                            j: int,
                        |
                            i < j < lines.len() ==> !has_entry_of(
                                lines,
                                j,
                                entry_at(lines, i)->Some_0.0,
                            )) implies keys[entry_at(lines, i)->Some_0.0] == entry_at(
                        lines,
                        i,
                    )->Some_0.1 by {
                        let entry = entry_at(lines, i)->Some_0;
                        if i < n {
                            assert(entry_at(rest, i) == entry_at(lines, i));
                            assert(!has_entry_of(lines, n, entry.0));
                            assert forall|j: int| i < j < rest.len() implies !has_entry_of(
                                rest,
                                j,
                                entry.0,
                            ) by {
                                assert(entry_at(rest, j) == entry_at(lines, j));
                                assert(!has_entry_of(lines, j, entry.0));
                            }
                        }
                    }
                }
            },
        }
    }
}

/// One lines-prefix result stands for another: both read, or both fail.
pub open spec fn same_keys(
    a: Result<Map<Seq<u8>, Seq<char>>, Seq<char>>,
    b: Result<Map<Seq<u8>, Seq<char>>, Seq<char>>,
) -> bool {
    &&& (a is Ok <==> b is Ok)
    &&& a is Ok ==> a == b
}

/// The lines that hold something: those that are neither blank nor `#`
/// lines once trimmed, in order.
pub open spec fn significant_lines(lines: Seq<Seq<char>>) -> Seq<Seq<char>>
    decreases lines.len(),
{
    if lines.len() == 0 {
        seq![]
    } else if is_ignored_line(trim(lines.last())) {
        significant_lines(lines.drop_last())
    } else {
        significant_lines(lines.drop_last()).push(lines.last())
    }
}

/// A document's lines give the same keys as their significant lines alone.
proof fn lemma_significant_lines_same_keys(lines: Seq<Seq<char>>, origin: Seq<char>)
    ensures
        same_keys(
            authorized_keys_of_lines(lines, origin),
            authorized_keys_of_lines(significant_lines(lines), origin),
        ),
    decreases lines.len(),
{
    if lines.len() > 0 {
        lemma_significant_lines_same_keys(lines.drop_last(), origin);
        if !is_ignored_line(trim(lines.last())) {
            let kept = significant_lines(lines.drop_last()).push(lines.last());
            assert(kept.drop_last() =~= significant_lines(lines.drop_last()));
            assert(kept.last() == lines.last());
        }
    }
}

/// Documents whose lines differ only in blank and `#` lines (inserted or
/// removed anywhere, any number of them) read alike: both read or both
/// fail, and when they read they give the same keys and comments.
pub proof fn lemma_documents_differ_in_ignored_lines(
    first: Seq<char>,
    second: Seq<char>,
    origin: Seq<char>,
)
    requires
        significant_lines(lines(first)) == significant_lines(lines(second)),
    ensures
        same_keys(
            authorized_keys_document(first, origin),
            authorized_keys_document(second, origin),
        ),
{
    lemma_significant_lines_same_keys(lines(first), origin);
    lemma_significant_lines_same_keys(lines(second), origin);
}

proof fn lemma_inserted_prefix(
    lines: Seq<Seq<char>>,
    p: int,
    extra: Seq<char>,
    origin: Seq<char>,
    n: int,
)
    requires
        0 <= p <= n <= lines.len(),
        is_ignored_line(trim(extra)),
    ensures
        same_keys(
            authorized_keys_of_lines((lines.take(p).push(extra) + lines.skip(p)).take(n + 1), origin),
            authorized_keys_of_lines(lines.take(n), origin),
        ),
    decreases n - p,
{
    let longer = lines.take(p).push(extra) + lines.skip(p);
    if n == p {
        assert(longer.take(n + 1).drop_last() =~= lines.take(n));
        assert(longer.take(n + 1).last() == extra);
    } else {
        lemma_inserted_prefix(lines, p, extra, origin, n - 1);
        assert(longer.take(n + 1).drop_last() =~= longer.take(n));
        assert(longer.take(n + 1).last() == lines[n - 1]);
        assert(lines.take(n).drop_last() =~= lines.take(n - 1));
        assert(lines.take(n).last() == lines[n - 1]);
    }
}

/// Inserting a blank or `#` line anywhere among a document's lines does
/// not change whether it reads, nor the keys and comments it gives.
pub proof fn lemma_ignored_line_inserted(
    lines: Seq<Seq<char>>,
    p: int,
    extra: Seq<char>,
    origin: Seq<char>,
)
    requires
        0 <= p <= lines.len(),
        is_ignored_line(trim(extra)),
    ensures
        same_keys(
            authorized_keys_of_lines(lines.take(p).push(extra) + lines.skip(p), origin),
            authorized_keys_of_lines(lines, origin),
        ),
{
    let longer = lines.take(p).push(extra) + lines.skip(p);
    lemma_inserted_prefix(lines, p, extra, origin, lines.len() as int);
    assert(longer.take(lines.len() + 1int) =~= longer);
    assert(lines.take(lines.len() as int) =~= lines);
}

/// Inserting, at a line boundary of a document, a line whose trimmed text
/// is empty or begins with `#` does not change whether the document reads,
/// nor the keys and comments it gives: such a line is ignored.
pub proof fn lemma_document_ignored_line_inserted(
    before: Seq<char>,
    after: Seq<char>,
    extra: Seq<char>,
    origin: Seq<char>,
)
    requires
        before.len() == 0 || before.last() == '\n',
        !extra.contains('\n'),
        trim(extra).len() == 0 || trim(extra)[0] == '#',
    ensures
        authorized_keys_document(before + extra + seq!['\n'] + after, origin) is Ok
            <==> authorized_keys_document(before + after, origin) is Ok,
        authorized_keys_document(before + extra + seq!['\n'] + after, origin) is Ok
            ==> authorized_keys_document(before + extra + seq!['\n'] + after, origin)
            == authorized_keys_document(before + after, origin),
{
    lemma_lines_concat(before, after);
    let tail = extra + seq!['\n'] + after;
    lemma_lines_concat(before, tail);
    assert(before + extra + seq!['\n'] + after =~= before + tail);
    lemma_lines_cons(extra, after);
    let stripped = strip_cr(extra);
    if extra.len() > 0 && extra.last() == '\r' {
        assert(extra =~= stripped.push('\r'));
        lemma_trim_push_whitespace(stripped, '\r');
    }
    let head = lines(before);
    let rest = lines(after);
    let p = head.len() as int;
    assert(head + (seq![stripped] + rest) =~= (head + rest).take(p).push(stripped) + (head
        + rest).skip(p));
    lemma_ignored_line_inserted(head + rest, p, stripped, origin);
}

/// `e`'s message placed at line `number` of `origin`.
fn error_at_line(origin: &str, number: usize, e: Error) -> (r: Error)
    requires
        e is Invalid,
    ensures
        is_invalid(&r, line_error(origin@, number as nat, e.message())),
{
    let inner = match e {
        Error::Invalid(message) => message,
        _ => String::new(),
    };
    let mut v: Vec<char> = Vec::new();
    push_str(&mut v, "Invalid authorized key at ");
    push_str(&mut v, origin);
    push_str(&mut v, ":");
    push_decimal(&mut v, number as u64);
    push_str(&mut v, ": ");
    push_str(&mut v, inner.as_str());
    Error::Invalid(string_of(&v))
}

/// Reads an authorized-keys document. Blank lines and lines whose first
/// non-whitespace character is `#` are ignored. The first
/// whitespace-delimited field is the public-key token; the rest is its
/// optional comment. A later line of the same key wins.
pub fn parse_authorized_keys(content: &str, origin: &str) -> (r: Result<AuthorizedKeys, Error>)
    ensures
        match r {
            Ok(keys) => authorized_keys_document(content@, origin@) == Ok::<
                Map<Seq<u8>, Seq<char>>,
                Seq<char>,
            >(keys@),
            Err(e) => authorized_keys_document(content@, origin@) matches Err(message)
                && is_invalid(&e, message),
        },
{
    let chars = chars_of(content);
    let ls = split_lines(&chars);
    let ghost all = lines(content@);
    let mut keys = AuthorizedKeys::new();
    let mut i: usize = 0;
    assert(all.take(0) =~= Seq::<Seq<char>>::empty());
    while i < ls.len()
        invariant
            i <= ls@.len(),
            all == lines(content@),
            ls@.len() == all.len(),
            forall|k: int| 0 <= k < ls@.len() ==> #[trigger] ls@[k]@ == all[k],
            authorized_keys_of_lines(all.take(i as int), origin@) == Ok::<
                Map<Seq<u8>, Seq<char>>,
                Seq<char>,
            >(keys@),
        decreases ls@.len() - i,
    {
        let ghost before = all.take(i as int);
        proof {
            assert(all.take(i + 1).drop_last() =~= before);
            assert(all.take(i + 1).last() == ls@[i as int]@);
        }
        let line = trimmed(&ls[i]);
        if line.len() == 0 || line[0] == '#' {
        } else {
            let end = find_whitespace(&line);
            let token = copy_range(&line, 0, end);
            let rest = copy_range(&line, end, line.len());
            proof {
                assert(token@ =~= line@.take(end as int));
                assert(rest@ =~= line@.skip(end as int));
            }
            let token_text = string_of(&token);
            match PublicKey::parse_token(token_text.as_str()) {
                Err(e) => {
                    let failure = error_at_line(origin, i + 1, e);
                    proof {
                        lemma_error_persists(all, origin@, i + 1, all.len() as int);
                        assert(all.take(all.len() as int) =~= all);
                    }
                    return Err(failure);
                },
                Ok(key) => {
                    let comment = trimmed(&rest);
                    match AuthorizedKey::from_chars(key, &comment) {
                        Err(e) => {
                            let failure = error_at_line(origin, i + 1, e);
                            proof {
                                lemma_error_persists(all, origin@, i + 1, all.len() as int);
                                assert(all.take(all.len() as int) =~= all);
                            }
                            return Err(failure);
                        },
                        Ok(entry) => {
                            keys.insert(entry);
                        },
                    }
                },
            }
        }
        i = i + 1;
    }
    assert(all.take(all.len() as int) =~= all);
    Ok(keys)
}

/// `parts` joined with `'\n'` between them.
pub open spec fn joined_lines(parts: Seq<Seq<char>>) -> Seq<char>
    decreases parts.len(),
{
    if parts.len() == 0 {
        seq![]
    } else if parts.len() == 1 {
        parts[0]
    } else {
        joined_lines(parts.drop_last()) + seq!['\n'] + parts.last()
    }
}

proof fn lemma_joined_lines_then(parts: Seq<Seq<char>>, rest: Seq<char>)
    requires
        parts.len() > 0,
        forall|i: int| 0 <= i < parts.len() ==> !(#[trigger] parts[i]).contains('\n'),
    ensures
        lines(joined_lines(parts) + seq!['\n'] + rest) == parts.map_values(
            |p: Seq<char>| strip_cr(p),
        ) + lines(rest),
    decreases parts.len(),
{
    if parts.len() == 1 {
        lemma_lines_cons(parts[0], rest);
        assert(parts.map_values(|p: Seq<char>| strip_cr(p)) =~= seq![strip_cr(parts[0])]);
    } else {
        let init = parts.drop_last();
        let last = parts.last();
        assert(forall|i: int| 0 <= i < init.len() ==> init[i] == parts[i]);
        let tail = last + seq!['\n'] + rest;
        lemma_joined_lines_then(init, tail);
        assert(joined_lines(parts) + seq!['\n'] + rest =~= joined_lines(init) + seq!['\n'] + tail);
        assert(!parts[parts.len() - 1].contains('\n'));
        lemma_lines_cons(last, rest);
        assert(parts.map_values(|p: Seq<char>| strip_cr(p)) =~= init.map_values(
            |p: Seq<char>| strip_cr(p),
        ).push(strip_cr(last)));
        assert(lines(joined_lines(parts) + seq!['\n'] + rest) =~= parts.map_values(
            |p: Seq<char>| strip_cr(p),
        ) + lines(rest));
    }
}

/// Joining entries puts each on a line of its own: the lines of the joined
/// text are the entries, in order, the last as it is and each earlier one
/// without a `'\r'` that ended it.
pub proof fn lemma_joined_lines_are_the_entries(parts: Seq<Seq<char>>)
    requires
        parts.len() > 0,
        parts.last().len() > 0,
        forall|i: int| 0 <= i < parts.len() ==> !(#[trigger] parts[i]).contains('\n'),
    ensures
        lines(joined_lines(parts)).len() == parts.len(),
        forall|i: int|
            0 <= i < parts.len() - 1 ==> #[trigger] lines(joined_lines(parts))[i] == strip_cr(
                parts[i],
            ),
        lines(joined_lines(parts)).last() == parts.last(),
{
    let last = parts.last();
    assert(!parts[parts.len() - 1].contains('\n'));
    lemma_lines_single(last);
    if parts.len() == 1 {
        assert(joined_lines(parts) == parts[0]);
    } else {
        let init = parts.drop_last();
        assert(forall|i: int| 0 <= i < init.len() ==> init[i] == parts[i]);
        lemma_joined_lines_then(init, last);
        let m = init.map_values(|p: Seq<char>| strip_cr(p));
        assert(lines(joined_lines(parts)) == m + seq![last]);
        assert forall|i: int| 0 <= i < parts.len() - 1 implies #[trigger] lines(
            joined_lines(parts),
        )[i] == strip_cr(parts[i]) by {
            assert((m + seq![last])[i] == m[i]);
        }
    }
}

/// Reads authorized-key entries given one per string, as the document of
/// the strings joined with newlines.
pub fn parse_authorized_key_entries(entries: &[String], origin: &str) -> (r: Result<
    AuthorizedKeys,
    Error,
>)
    ensures
        ({
            let content = joined_lines(entries@.map_values(|e: String| e@));
            match r {
                Ok(keys) => authorized_keys_document(content, origin@) == Ok::<
                    Map<Seq<u8>, Seq<char>>,
                    Seq<char>,
                >(keys@),
                Err(e) => authorized_keys_document(content, origin@) matches Err(message)
                    && is_invalid(&e, message),
            }
        }),
{
    let ghost parts = entries@.map_values(|e: String| e@);
    let mut v: Vec<char> = Vec::new();
    let mut i: usize = 0;
    while i < entries.len()
        invariant
            i <= entries@.len(),
            parts == entries@.map_values(|e: String| e@),
            v@ == joined_lines(parts.take(i as int)),
        decreases entries@.len() - i,
    {
        proof {
            assert(parts.take(i + 1).drop_last() =~= parts.take(i as int));
            assert(parts.take(i + 1).last() == entries@[i as int]@);
        }
        if i > 0 {
            v.push('\n');
        }
        push_str(&mut v, entries[i].as_str());
        i = i + 1;
        proof {
            if i == 1 {
                assert(parts.take(1) =~= seq![entries@[0]@]);
            }
        }
    }
    assert(parts.take(entries@.len() as int) =~= parts);
    let content = string_of(&v);
    parse_authorized_keys(content.as_str(), origin)
}

} // verus!

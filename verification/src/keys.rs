//! Session keys and the file names made from them.

use vstd::prelude::*;
use vstd::string::StringExecFns;

use crate::text::{chars_of, stands_at, string_of, texts};

verus! {

/// The ending of a history file.
pub const DATA_SUFFIX: &'static str = ".jsonl";

/// The ending of a lock file. It is no history ending, so a lock file is never listed.
pub const LOCK_SUFFIX: &'static str = ".lock";

/// The ending of an id record.
pub const META_SUFFIX: &'static str = ".meta.json";

/// The ending of an id record that is still being written.
pub const META_TEMP_SUFFIX: &'static str = ".meta.tmp";

/// Whether `char::is_alphanumeric` holds of a character beyond ASCII.
pub uninterp spec fn is_alphanumeric_beyond_ascii(c: char) -> bool;

/// Whether `char::is_alphanumeric` holds of the character.
pub open spec fn is_alphanumeric(c: char) -> bool {
    if c <= '\u{7f}' {
        'a' <= c <= 'z' || 'A' <= c <= 'Z' || '0' <= c <= '9'
    } else {
        is_alphanumeric_beyond_ascii(c)
    }
}

/// Trusted: `char::is_alphanumeric` tests for Unicode letters and numerals, which depends on the
/// character alone. In ASCII these are the letters and the digits.
pub assume_specification[ char::is_alphanumeric ](c: char) -> (yes: bool)
    ensures
        c <= '\u{7f}' ==> yes == is_alphanumeric(c),
        c > '\u{7f}' ==> yes == is_alphanumeric_beyond_ascii(c),
;

/// Whether a character may stand in a file name.
pub open spec fn is_key_char(c: char) -> bool {
    is_alphanumeric(c) || c == '_' || c == '-'
}

/// The character that stands for `c` in a file name.
pub open spec fn safe_char(c: char) -> char {
    if is_key_char(c) {
        c
    } else {
        '_'
    }
}

/// The key with every character that may not stand in a file name replaced by `_`.
pub open spec fn sanitized(key: Seq<char>) -> Seq<char> {
    key.map_values(|c: char| safe_char(c))
}

/// Makes a session key safe for the file system.
pub fn sanitize_session_key(key: &str) -> (safe: String)
    ensures
        safe@ == sanitized(key@),
{
    let chars: Vec<char> = chars_of(key);
    let mut safe: String = String::new();
    let mut i: usize = 0;
    while i < chars.len()
        invariant
            i <= chars@.len(),
            chars@ == key@,
            safe@ == sanitized(key@).take(i as int),
        decreases chars@.len() - i,
    {
        let c: char = chars[i];
        if c.is_alphanumeric() || c == '_' || c == '-' {
            safe.push(c);
        } else {
            safe.push('_');
        }
        assert(sanitized(key@).take(i + 1) =~= sanitized(key@).take(i as int).push(safe_char(c)));
        i += 1;
    }
    assert(sanitized(key@).take(key@.len() as int) =~= sanitized(key@));
    safe
}

/// Sanitizing a key again changes nothing.
pub proof fn law_sanitizing_is_idempotent(key: Seq<char>)
    ensures
        sanitized(sanitized(key)) == sanitized(key),
{
    assert(sanitized(sanitized(key)) =~= sanitized(key));
}

/// A sanitized key is as long as the key and is made of letters, numerals, `_` and `-` alone. So it
/// holds no dot and no path separator.
pub proof fn law_sanitized_key_is_safe(key: Seq<char>)
    ensures
        sanitized(key).len() == key.len(),
        forall|i: int| 0 <= i < key.len() ==> is_key_char(#[trigger] sanitized(key)[i]),
        !sanitized(key).contains('.'),
        !sanitized(key).contains('/'),
        !sanitized(key).contains('\\'),
{
    assert forall|i: int| 0 <= i < key.len() implies is_key_char(#[trigger] sanitized(key)[i])
        && sanitized(key)[i] != '.' && sanitized(key)[i] != '/' && sanitized(key)[i] != '\\' by {
        assert(sanitized(key)[i] == safe_char(key[i]));
    }
}

/// The name of the history file of a session.
pub open spec fn data_name(key: Seq<char>) -> Seq<char> {
    sanitized(key) + DATA_SUFFIX@
}

/// The name of the lock file of a session.
pub open spec fn lock_name(key: Seq<char>) -> Seq<char> {
    sanitized(key) + LOCK_SUFFIX@
}

/// The name of the id record of a session.
pub open spec fn meta_name(key: Seq<char>) -> Seq<char> {
    sanitized(key) + META_SUFFIX@
}

/// The name under which the id record of a session is written before it takes its place.
pub open spec fn meta_temp_name(key: Seq<char>) -> Seq<char> {
    sanitized(key) + META_TEMP_SUFFIX@
}

/// The file name of a sanitized key with an ending.
fn named(key: &str, suffix: &str) -> (name: String)
    ensures
        name@ == sanitized(key@) + suffix@,
{
    let mut name: String = sanitize_session_key(key);
    name.append(suffix);
    name
}

/// The name of the history file of a session.
pub fn data_file(key: &str) -> (name: String)
    ensures
        name@ == data_name(key@),
{
    named(key, DATA_SUFFIX)
}

/// The name of the lock file of a session.
pub fn lock_file(key: &str) -> (name: String)
    ensures
        name@ == lock_name(key@),
{
    named(key, LOCK_SUFFIX)
}

/// The name of the id record of a session.
pub fn meta_file(key: &str) -> (name: String)
    ensures
        name@ == meta_name(key@),
{
    named(key, META_SUFFIX)
}

/// The name under which the id record of a session is written before it takes its place.
pub fn meta_temp_file(key: &str) -> (name: String)
    ensures
        name@ == meta_temp_name(key@),
{
    named(key, META_TEMP_SUFFIX)
}

proof fn lemma_dotted_names(a: Seq<char>, s: Seq<char>, b: Seq<char>, t: Seq<char>)
    requires
        !a.contains('.'),
        !b.contains('.'),
        s.len() > 0 && s[0] == '.',
        t.len() > 0 && t[0] == '.',
        a + s == b + t,
    ensures
        a == b,
        s == t,
{
    let x = a + s;
    let y = b + t;
    assert(x[a.len() as int] == '.');
    assert(y[b.len() as int] == '.');
    if a.len() < b.len() {
        assert(y[a.len() as int] == b[a.len() as int]);
        assert(b.contains('.'));
    }
    if b.len() < a.len() {
        assert(x[b.len() as int] == a[b.len() as int]);
        assert(a.contains('.'));
    }
    assert(a =~= x.take(a.len() as int));
    assert(b =~= y.take(b.len() as int));
    assert(s =~= x.skip(a.len() as int));
    assert(t =~= y.skip(b.len() as int));
}

/// The four endings.
proof fn lemma_suffixes()
    ensures
        DATA_SUFFIX@ == seq!['.', 'j', 's', 'o', 'n', 'l'],
        LOCK_SUFFIX@ == seq!['.', 'l', 'o', 'c', 'k'],
        META_SUFFIX@ == seq!['.', 'm', 'e', 't', 'a', '.', 'j', 's', 'o', 'n'],
        META_TEMP_SUFFIX@ == seq!['.', 'm', 'e', 't', 'a', '.', 't', 'm', 'p'],
{
    reveal_strlit(".jsonl");
    reveal_strlit(".lock");
    reveal_strlit(".meta.json");
    reveal_strlit(".meta.tmp");
    assert(DATA_SUFFIX@ =~= seq!['.', 'j', 's', 'o', 'n', 'l']);
    assert(LOCK_SUFFIX@ =~= seq!['.', 'l', 'o', 'c', 'k']);
    assert(META_SUFFIX@ =~= seq!['.', 'm', 'e', 't', 'a', '.', 'j', 's', 'o', 'n']);
    assert(META_TEMP_SUFFIX@ =~= seq!['.', 'm', 'e', 't', 'a', '.', 't', 'm', 'p']);
}

/// Two sessions share a history file, a lock file, or an id record exactly if their keys are
/// sanitized alike, and files of different kinds never share a name, whatever the keys.
pub proof fn law_file_names_are_distinct(a: Seq<char>, b: Seq<char>)
    ensures
        data_name(a) == data_name(b) <==> sanitized(a) == sanitized(b),
        lock_name(a) == lock_name(b) <==> sanitized(a) == sanitized(b),
        meta_name(a) == meta_name(b) <==> sanitized(a) == sanitized(b),
        meta_temp_name(a) == meta_temp_name(b) <==> sanitized(a) == sanitized(b),
        data_name(a) != lock_name(b),
        data_name(a) != meta_name(b),
        data_name(a) != meta_temp_name(b),
        lock_name(a) != meta_name(b),
        lock_name(a) != meta_temp_name(b),
        meta_name(a) != meta_temp_name(b),
{
    let x = sanitized(a);
    let y = sanitized(b);
    law_sanitized_key_is_safe(a);
    law_sanitized_key_is_safe(b);
    lemma_suffixes();
    let endings = seq![DATA_SUFFIX@, LOCK_SUFFIX@, META_SUFFIX@, META_TEMP_SUFFIX@];
    assert(endings[0] != endings[1]) by {
        assert(endings[0][1] != endings[1][1]);
    }
    assert(endings[0] != endings[2]) by {
        assert(endings[0][1] != endings[2][1]);
    }
    assert(endings[0] != endings[3]) by {
        assert(endings[0][1] != endings[3][1]);
    }
    assert(endings[1] != endings[2]) by {
        assert(endings[1][1] != endings[2][1]);
    }
    assert(endings[1] != endings[3]) by {
        assert(endings[1][1] != endings[3][1]);
    }
    assert(endings[2] != endings[3]) by {
        assert(endings[2][6] != endings[3][6]);
    }
    assert forall|i: int, j: int| 0 <= i < 4 && 0 <= j < 4 && x + endings[i] == y + endings[j] implies x
        == y && endings[i] == endings[j] by {
        lemma_dotted_names(x, endings[i], y, endings[j]);
    }
    assert(data_name(a) == x + endings[0] && data_name(b) == y + endings[0]);
    assert(lock_name(a) == x + endings[1] && lock_name(b) == y + endings[1]);
    assert(meta_name(a) == x + endings[2] && meta_name(b) == y + endings[2]);
    assert(meta_temp_name(a) == x + endings[3] && meta_temp_name(b) == y + endings[3]);
}

/// The session that a file name belongs to as a history file; `None` where it is another file.
pub open spec fn session_of(name: Seq<char>) -> Option<Seq<char>> {
    if DATA_SUFFIX@.is_suffix_of(name) {
        Some(name.take(name.len() - DATA_SUFFIX@.len()))
    } else {
        None
    }
}

/// The sessions among the names of a directory, in the order of the names.
pub open spec fn sessions_among(names: Seq<Seq<char>>) -> Seq<Seq<char>>
    decreases names.len(),
{
    if names.len() == 0 {
        Seq::empty()
    } else {
        let before = sessions_among(names.drop_last());
        match session_of(names.last()) {
            Some(key) => before.push(key),
            None => before,
        }
    }
}

/// The session that a file name belongs to as a history file; `None` where it is another file.
pub fn session_key_of(name: &str) -> (key: Option<String>)
    ensures
        key matches Some(k) ==> session_of(name@) == Some(k@),
        key is None ==> session_of(name@) is None,
{
    let name: Vec<char> = chars_of(name);
    let suffix: Vec<char> = chars_of(DATA_SUFFIX);
    if name.len() < suffix.len() {
        return None;
    }
    let end: usize = name.len() - suffix.len();
    if stands_at(&name, end, &suffix) {
        assert(name@.subrange(0, end as int) =~= name@.take(end as int));
        Some(string_of(&name, 0, end))
    } else {
        None
    }
}

/// The sessions among the names of a directory, in the order of the names.
pub fn session_keys(names: &Vec<String>) -> (keys: Vec<String>)
    ensures
        texts(keys@) == sessions_among(texts(names@)),
{
    let ghost all = texts(names@);
    let mut keys: Vec<String> = Vec::new();
    let mut i: usize = 0;
    assert(all.take(0) =~= Seq::<Seq<char>>::empty());
    assert(texts(keys@) =~= Seq::<Seq<char>>::empty());
    while i < names.len()
        invariant
            i <= names@.len(),
            all == texts(names@),
            texts(keys@) == sessions_among(all.take(i as int)),
        decreases names@.len() - i,
    {
        let ghost before = keys@;
        proof {
            assert(all.take(i + 1).drop_last() =~= all.take(i as int));
            assert(all.take(i + 1).last() == names@[i as int]@);
        }
        if let Some(key) = session_key_of(names[i].as_str()) {
            keys.push(key);
            assert(texts(keys@) =~= texts(before).push(key@));
        }
        i += 1;
    }
    assert(all.take(all.len() as int) =~= all);
    keys
}

/// A listing names a history file by its sanitized key, and names no lock file and no id record.
/// Going by a listed key leads to the same files.
pub proof fn law_listing_names_histories_alone(key: Seq<char>)
    ensures
        session_of(data_name(key)) == Some(sanitized(key)),
        session_of(lock_name(key)) is None,
        session_of(meta_name(key)) is None,
        session_of(meta_temp_name(key)) is None,
        data_name(sanitized(key)) == data_name(key),
        lock_name(sanitized(key)) == lock_name(key),
        meta_name(sanitized(key)) == meta_name(key),
{
    law_sanitizing_is_idempotent(key);
    lemma_suffixes();
    let safe = sanitized(key);
    let data = data_name(key);
    assert(DATA_SUFFIX@ =~= data.subrange(safe.len() as int, data.len() as int));
    assert(data.take(safe.len() as int) =~= safe);
    assert(DATA_SUFFIX@[5] == 'l');
    assert(lock_name(key).last() == 'k');
    assert(meta_name(key).last() == 'n');
    assert(meta_temp_name(key).last() == 'p');
    assert forall|name: Seq<char>| name.len() > 0 && #[trigger] name.last() != 'l' implies session_of(
        name,
    ) is None by {
        if DATA_SUFFIX@.is_suffix_of(name) {
            let tail = name.subrange(name.len() - 6, name.len() as int);
            assert(tail[5] == name.last());
            assert(DATA_SUFFIX@[5] == tail[5]);
        }
    }
}

/// A session is listed exactly if its history file is among the names.
pub proof fn law_listing_is_complete(names: Seq<Seq<char>>, key: Seq<char>)
    ensures
        sessions_among(names).contains(key) <==> names.contains(key + DATA_SUFFIX@),
    decreases names.len(),
{
    let name = key + DATA_SUFFIX@;
    let listed = sessions_among(names);
    if names.len() > 0 {
        let fewer = names.drop_last();
        let before = sessions_among(fewer);
        law_listing_is_complete(fewer, key);
        assert(names =~= fewer.push(names.last()));
        assert(session_of(name) == Some(key)) by {
            assert(DATA_SUFFIX@ =~= name.subrange(key.len() as int, name.len() as int));
            assert(name.take(key.len() as int) =~= key);
        }
        if session_of(names.last()) == Some(key) {
            let last = names.last();
            assert(last =~= last.take(last.len() - DATA_SUFFIX@.len()) + last.subrange(
                last.len() - DATA_SUFFIX@.len(),
                last.len() as int,
            ));
            assert(last == name);
            assert(names[names.len() - 1] == name);
            assert(listed[listed.len() - 1] == key);
        } else {
            assert(names.last() != name);
            if before.contains(key) {
                let i = choose|i: int| 0 <= i < before.len() && before[i] == key;
                assert(listed[i] == key);
            }
            if listed.contains(key) {
                let i = choose|i: int| 0 <= i < listed.len() && listed[i] == key;
                assert(i < before.len());
                assert(before[i] == key);
            }
            if names.contains(name) {
                let i = choose|i: int| 0 <= i < names.len() && names[i] == name;
                assert(fewer[i] == name);
            }
            if fewer.contains(name) {
                let i = choose|i: int| 0 <= i < fewer.len() && fewer[i] == name;
                assert(names[i] == name);
            }
        }
    }
}

/// Sanitizing goes character by character. A letter, a numeral, `_` and `-` stay where they are, and
/// anything else becomes `_`.
pub proof fn law_sanitizing_keeps_what_is_safe(key: Seq<char>)
    ensures
        sanitized(key).len() == key.len(),
        forall|i: int|
            0 <= i < key.len() ==> #[trigger] sanitized(key)[i] == if 'a' <= key[i] <= 'z' || 'A'
                <= key[i] <= 'Z' || '0' <= key[i] <= '9' || key[i] == '_' || key[i] == '-' || (
            key[i] > '\u{7f}' && is_alphanumeric_beyond_ascii(key[i])) {
                key[i]
            } else {
                '_'
            },
{
}

/// A key that is made of letters, digits, `_` and `-` alone is its own sanitized form, so that two
/// different keys of this kind share no file.
pub proof fn law_safe_keys_stand_for_themselves(a: Seq<char>, b: Seq<char>)
    requires
        forall|i: int|
            0 <= i < a.len() ==> 'a' <= #[trigger] a[i] <= 'z' || 'A' <= a[i] <= 'Z' || '0' <= a[i]
                <= '9' || a[i] == '_' || a[i] == '-',
        forall|i: int|
            0 <= i < b.len() ==> 'a' <= #[trigger] b[i] <= 'z' || 'A' <= b[i] <= 'Z' || '0' <= b[i]
                <= '9' || b[i] == '_' || b[i] == '-',
        a != b,
    ensures
        sanitized(a) == a,
        data_name(a) != data_name(b),
        lock_name(a) != lock_name(b),
        meta_name(a) != meta_name(b),
        meta_temp_name(a) != meta_temp_name(b),
{
    law_sanitizing_keeps_what_is_safe(a);
    law_sanitizing_keeps_what_is_safe(b);
    assert(sanitized(a) =~= a);
    assert(sanitized(b) =~= b);
    law_file_names_are_distinct(a, b);
}

/// The files of a session are named by its key, made safe, and an ending of their own.
pub proof fn law_file_names_show_the_key(key: Seq<char>)
    ensures
        data_name(key).take(key.len() as int) == sanitized(key),
        data_name(key).skip(key.len() as int) == ".jsonl"@,
        lock_name(key).take(key.len() as int) == sanitized(key),
        lock_name(key).skip(key.len() as int) == ".lock"@,
        meta_name(key).take(key.len() as int) == sanitized(key),
        meta_name(key).skip(key.len() as int) == ".meta.json"@,
        meta_temp_name(key).take(key.len() as int) == sanitized(key),
        meta_temp_name(key).skip(key.len() as int) == ".meta.tmp"@,
{
    law_sanitizing_keeps_what_is_safe(key);
    let n = key.len() as int;
    assert(data_name(key).take(n) =~= sanitized(key));
    assert(data_name(key).skip(n) =~= ".jsonl"@);
    assert(lock_name(key).take(n) =~= sanitized(key));
    assert(lock_name(key).skip(n) =~= ".lock"@);
    assert(meta_name(key).take(n) =~= sanitized(key));
    assert(meta_name(key).skip(n) =~= ".meta.json"@);
    assert(meta_temp_name(key).take(n) =~= sanitized(key));
    assert(meta_temp_name(key).skip(n) =~= ".meta.tmp"@);
}

/// The sessions among two lists of names are those among the first, and then those among the second.
pub proof fn law_listings_join(a: Seq<Seq<char>>, b: Seq<Seq<char>>)
    ensures
        sessions_among(a + b) == sessions_among(a) + sessions_among(b),
    decreases b.len(),
{
    if b.len() == 0 {
        assert(a + b =~= a);
        assert(sessions_among(a + b) =~= sessions_among(a) + sessions_among(b));
    } else {
        law_listings_join(a, b.drop_last());
        assert((a + b).drop_last() =~= a + b.drop_last());
        assert((a + b).last() == b.last());
        assert(sessions_among(a + b) =~= sessions_among(a) + sessions_among(b));
    }
}

/// A name lists one session where it ends with `.jsonl`, namely what comes before that, and none
/// where it does not.
pub proof fn law_a_name_lists_what_comes_before_its_ending(name: Seq<char>, key: Seq<char>)
    ensures
        name == key + ".jsonl"@ ==> sessions_among(seq![name]) == seq![key],
        (forall|k: Seq<char>| name != #[trigger] (k + ".jsonl"@)) ==> sessions_among(seq![name])
            == Seq::<Seq<char>>::empty(),
        sessions_among(Seq::empty()) == Seq::<Seq<char>>::empty(),
{
    reveal_with_fuel(sessions_among, 2);
    let ending = ".jsonl"@;
    assert(seq![name].drop_last() =~= Seq::<Seq<char>>::empty());
    assert(seq![name].last() == name);
    if name == key + ending {
        assert(ending =~= name.subrange(key.len() as int, name.len() as int));
        assert(name.take(name.len() - ending.len()) =~= key);
        assert(sessions_among(seq![name]) =~= seq![key]);
    }
    if forall|k: Seq<char>| name != #[trigger] (k + ending) {
        if ending.is_suffix_of(name) {
            let k = name.take(name.len() - ending.len());
            assert(name =~= k + ending);
        }
    }
}

/// Where no file name is listed twice, no session is.
pub proof fn law_no_session_is_listed_twice(names: Seq<Seq<char>>)
    requires
        names.no_duplicates(),
    ensures
        sessions_among(names).no_duplicates(),
    decreases names.len(),
{
    if names.len() > 0 {
        let fewer = names.drop_last();
        law_no_session_is_listed_twice(fewer);
        let before = sessions_among(fewer);
        if let Some(key) = session_of(names.last()) {
            let last = names.last();
            let ending = DATA_SUFFIX@;
            assert(last =~= key + ending) by {
                assert(last =~= last.take(last.len() - ending.len()) + last.subrange(
                    last.len() - ending.len(),
                    last.len() as int,
                ));
            }
            law_listing_is_complete(fewer, key);
            if before.contains(key) {
                let i = choose|i: int| 0 <= i < fewer.len() && fewer[i] == last;
                assert(names[i] == names[names.len() - 1]);
            }
            let all = sessions_among(names);
            assert forall|i: int, j: int|
                0 <= i < all.len() && 0 <= j < all.len() && i != j implies all[i] != all[j] by {
                if i == before.len() {
                    assert(before[j] == all[j]);
                } else if j == before.len() {
                    assert(before[i] == all[i]);
                }
            }
        }
    }
}

} // verus!

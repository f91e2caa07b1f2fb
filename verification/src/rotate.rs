//! Log rotation: the names of rotated files, and when to rotate.
//!
//! A rotated file is named `<stem>.YYYY-MM-DD.<seq>.<ext>`. Sequence numbers start at 1 and grow
//! with each rotation of the same day.

use vstd::prelude::*;
use vstd::string::StringExecFns;

use crate::dates::{parsed_date, Date};
use crate::text::{chars_of, decimal, decimal_string, parse_u32, stands_at, string_of, texts, u32_value};

verus! {

/// The text that stands in for a missing stem or extension.
pub const DEFAULT_PART: &'static str = "log";

/// What a rotated file name says.
#[derive(Clone, Copy, Debug, PartialEq, Eq, Structural)]
pub struct RotatedNameParts {
    pub date: Date,
    pub seq: u32,
}

/// The name of the file being written to: its stem and its extension, each `None` where the path
/// has none or where it is not text.
#[derive(Clone, Debug)]
pub struct ActiveFile {
    pub stem: Option<String>,
    pub extension: Option<String>,
}

/// The text of a name part, or the default where there is none.
pub open spec fn part_or_default(part: Option<String>) -> Seq<char> {
    match part {
        Some(s) => s@,
        None => DEFAULT_PART@,
    }
}

impl ActiveFile {
    pub open spec fn stem_text(self) -> Seq<char> {
        part_or_default(self.stem)
    }

    pub open spec fn extension_text(self) -> Seq<char> {
        part_or_default(self.extension)
    }

    /// The stem, or the default.
    pub fn stem(&self) -> (s: String)
        ensures
            s@ == self.stem_text(),
    {
        match &self.stem {
            Some(s) => s.clone(),
            None => DEFAULT_PART.to_owned(),
        }
    }

    /// The extension, or the default.
    pub fn extension(&self) -> (s: String)
        ensures
            s@ == self.extension_text(),
    {
        match &self.extension {
            Some(s) => s.clone(),
            None => DEFAULT_PART.to_owned(),
        }
    }
}

/// The file name of a rotation: `<stem>.<date>.<seq>.<ext>`.
pub open spec fn rotated_name(stem: Seq<char>, date: Date, seq: u32, ext: Seq<char>) -> Seq<char> {
    stem.push('.') + date.text().push('.') + decimal(seq as nat).push('.') + ext
}

/// The parts of a rotated name whose date and sequence number were read, `None` unless both were.
pub open spec fn joined_parts(date: Option<Date>, seq: Option<u32>) -> Option<RotatedNameParts> {
    match (date, seq) {
        (Some(date), Some(seq)) => Some(RotatedNameParts { date, seq }),
        _ => None,
    }
}

/// The parts of a rotated name whose date and sequence number were read, `None` unless both were.
pub fn parts_of(date: Option<Date>, seq: Option<u32>) -> (parts: Option<RotatedNameParts>)
    ensures
        parts == joined_parts(date, seq),
        parts is Some <==> date is Some && seq is Some,
{
    match (date, seq) {
        (Some(date), Some(seq)) => Some(RotatedNameParts { date, seq }),
        _ => None,
    }
}

/// What the part of a rotated name between stem and extension says: a date, a dot, and a sequence
/// number that holds no dot.
pub open spec fn dated_middle(middle: Seq<char>) -> Option<RotatedNameParts> {
    match middle.index_of_last('.') {
        Some(dot) => joined_parts(
            parsed_date(middle.take(dot)),
            u32_value(middle.skip(dot + 1)),
        ),
        None => None,
    }
}

/// What a file name says as a rotation of `<stem>.<ext>`; `None` where it is not one.
pub open spec fn rotated_parts(name: Seq<char>, stem: Seq<char>, ext: Seq<char>) -> Option<
    RotatedNameParts,
> {
    let prefix = stem.push('.');
    let suffix = seq!['.'] + ext;
    if prefix.is_prefix_of(name) && suffix.is_suffix_of(name) && prefix.len() + suffix.len()
        < name.len() {
        dated_middle(name.subrange(prefix.len() as int, name.len() - suffix.len()))
    } else {
        None
    }
}

/// Reads a name such as `app.2026-05-06.1.jsonl`; `None` where it is not of that form.
pub fn parse_rotated_filename(name: &str, stem: &str, ext: &str) -> (parts: Option<
    RotatedNameParts,
>)
    ensures
        parts == rotated_parts(name@, stem@, ext@),
        parts matches Some(p) ==> p.date.valid(),
{
    let name: Vec<char> = chars_of(name);
    let stem: Vec<char> = chars_of(stem);
    let ext: Vec<char> = chars_of(ext);
    let ghost prefix = stem@.push('.');
    let ghost suffix = seq!['.'] + ext@;
    if stem.len() >= name.len() || ext.len() >= name.len() - stem.len() || name.len() - stem.len()
        - ext.len() <= 2 {
        return None;
    }
    let start: usize = stem.len() + 1;
    let end: usize = name.len() - ext.len() - 1;
    if !stands_at(&name, 0, &stem) || name[start - 1] != '.' {
        assert(!prefix.is_prefix_of(name@)) by {
            let head = name@.subrange(0, prefix.len() as int);
            if prefix =~= head {
                assert(name@.subrange(0, stem@.len() as int) =~= prefix.drop_last());
                assert(prefix.drop_last() =~= stem@);
                assert(head[start - 1] == prefix[start - 1]);
            }
        }
        return None;
    }
    if !stands_at(&name, end + 1, &ext) || name[end] != '.' {
        assert(!suffix.is_suffix_of(name@)) by {
            let tail = name@.subrange(end as int, name@.len() as int);
            if suffix =~= tail {
                assert(name@.subrange(end + 1, end + 1 + ext@.len()) =~= suffix.drop_first());
                assert(suffix.drop_first() =~= ext@);
                assert(tail[0] == suffix[0]);
            }
        }
        return None;
    }
    let ghost middle = name@.subrange(start as int, end as int);
    proof {
        assert(prefix =~= name@.subrange(0, prefix.len() as int)) by {
            assert(name@.subrange(0, stem@.len() as int) == stem@);
            assert forall|i: int| 0 <= i < prefix.len() implies prefix[i] == name@.subrange(
                0,
                prefix.len() as int,
            )[i] by {
                if i < stem@.len() {
                    assert(name@.subrange(0, stem@.len() as int)[i] == stem@[i]);
                }
            }
        }
        assert(suffix =~= name@.subrange(end as int, name@.len() as int)) by {
            let tail = name@.subrange(end as int, name@.len() as int);
            assert(name@.subrange(end + 1, end + 1 + ext@.len()) == ext@);
            assert forall|i: int| 0 <= i < suffix.len() implies suffix[i] == tail[i] by {
                if i > 0 {
                    assert(name@.subrange(end + 1, end + 1 + ext@.len())[i - 1] == ext@[i - 1]);
                }
            }
        }
        middle.index_of_last_ensures('.');
    }
    let mut dot: usize = end;
    while dot > start && name[dot - 1] != '.'
        invariant
            start <= dot <= end < name@.len(),
            middle == name@.subrange(start as int, end as int),
            forall|j: int| dot - start <= j < end - start ==> middle[j] != '.',
        decreases dot,
    {
        dot -= 1;
    }
    if dot == start {
        return None;
    }
    dot -= 1;
    assert(middle[dot - start] == '.');
    assert(middle.index_of_last('.') == Some(dot - start));
    assert(middle.take(dot - start) =~= name@.subrange(start as int, dot as int));
    let date_text: String = string_of(&name, start, dot);
    let seq_text: String = string_of(&name, dot + 1, end);
    assert(seq_text@ =~= middle.skip(dot + 1 - start));
    let seq_chars: Vec<char> = chars_of(seq_text.as_str());
    assert(seq_chars@.skip(0) =~= seq_text@);
    parts_of(Date::from_text(date_text.as_str()), parse_u32(&seq_chars, 0))
}

/// Reading the name of a rotation gives back its date and sequence number. The date must be one
/// that is read back from its text, as `Date::to_text` ensures of every valid date.
pub proof fn law_rotated_name_reads_back(stem: Seq<char>, date: Date, seq: u32, ext: Seq<char>)
    requires
        parsed_date(date.text()) == Some(date),
    ensures
        rotated_parts(rotated_name(stem, date, seq, ext), stem, ext) == Some(
            (RotatedNameParts { date, seq }),
        ),
{
    let name = rotated_name(stem, date, seq, ext);
    let prefix = stem.push('.');
    let suffix = seq!['.'] + ext;
    let numeral = decimal(seq as nat);
    crate::text::lemma_decimal_value(seq as nat);
    crate::text::law_decimal_reads_back(seq);
    let middle = date.text().push('.') + numeral;
    assert(name =~= prefix + middle + suffix);
    assert(prefix =~= name.subrange(0, prefix.len() as int));
    assert(suffix =~= name.subrange(name.len() - suffix.len(), name.len() as int));
    assert(name.subrange(prefix.len() as int, name.len() - suffix.len()) =~= middle);
    middle.index_of_last_ensures('.');
    let dot = date.text().len() as int;
    assert(middle[dot] == '.');
    assert forall|j: int| dot < j < middle.len() implies middle[j] != '.' by {
        assert(crate::text::is_digit(numeral[j - dot - 1]));
    }
    assert(middle.index_of_last('.') == Some(dot));
    assert(middle.take(dot) =~= date.text());
    assert(middle.skip(dot + 1) =~= numeral);
}

/// The name under which the active file is put away, such as `runtime-trace.2026-04-20.1.jsonl`.
///
/// Reading that name gives back the date and the sequence number.
pub fn format_rotated_name(active: &ActiveFile, date: Date, seq: u32) -> (name: String)
    requires
        date.valid(),
    ensures
        name@ == rotated_name(active.stem_text(), date, seq, active.extension_text()),
        rotated_parts(name@, active.stem_text(), active.extension_text()) == Some(
            (RotatedNameParts { date, seq }),
        ),
{
    let mut name: String = active.stem();
    name.push('.');
    let date_text: String = date.to_text();
    name.append(date_text.as_str());
    name.push('.');
    name.append(decimal_string(seq).as_str());
    name.push('.');
    name.append(active.extension().as_str());
    proof {
        let stem = active.stem_text();
        let ext = active.extension_text();
        assert(name@ =~= rotated_name(stem, date, seq, ext));
        law_rotated_name_reads_back(stem, date, seq, ext);
    }
    name
}

/// The sequence number that a file name takes up on a day, 0 where it takes up none.
pub open spec fn taken_sequence(
    name: Seq<char>,
    stem: Seq<char>,
    ext: Seq<char>,
    date: Date,
) -> u32 {
    match rotated_parts(name, stem, ext) {
        Some(parts) => if parts.date == date {
            parts.seq
        } else {
            0
        },
        None => 0,
    }
}

/// The greatest sequence number that the named files take up on a day, 0 where there is none.
pub open spec fn greatest_sequence(
    names: Seq<Seq<char>>,
    stem: Seq<char>,
    ext: Seq<char>,
    date: Date,
) -> u32
    decreases names.len(),
{
    if names.len() == 0 {
        0
    } else {
        let before = greatest_sequence(names.drop_last(), stem, ext, date);
        let last = taken_sequence(names.last(), stem, ext, date);
        if last > before {
            last
        } else {
            before
        }
    }
}

/// The greatest sequence number is one that bounds them all.
pub proof fn law_greatest_sequence_bounds(
    names: Seq<Seq<char>>,
    stem: Seq<char>,
    ext: Seq<char>,
    date: Date,
)
    ensures
        forall|i: int|
            0 <= i < names.len() ==> taken_sequence(#[trigger] names[i], stem, ext, date)
                <= greatest_sequence(names, stem, ext, date),
        greatest_sequence(names, stem, ext, date) == 0 || exists|i: int|
            0 <= i < names.len() && taken_sequence(#[trigger] names[i], stem, ext, date)
                == greatest_sequence(names, stem, ext, date),
    decreases names.len(),
{
    if names.len() > 0 {
        let shorter = names.drop_last();
        law_greatest_sequence_bounds(shorter, stem, ext, date);
        assert forall|i: int| 0 <= i < names.len() implies taken_sequence(
            #[trigger] names[i],
            stem,
            ext,
            date,
        ) <= greatest_sequence(names, stem, ext, date) by {
            if i < names.len() - 1 {
                assert(names[i] == shorter[i]);
            }
        }
        let before = greatest_sequence(shorter, stem, ext, date);
        if taken_sequence(names.last(), stem, ext, date) > before {
            assert(names[names.len() - 1] == names.last());
        } else if before != 0 {
            let i = choose|i: int|
                0 <= i < shorter.len() && taken_sequence(#[trigger] shorter[i], stem, ext, date)
                    == before;
            assert(names[i] == shorter[i]);
        }
    }
}

/// The greatest sequence number that the named files take up on a day, 0 where there is none.
pub fn max_sequence(names: &Vec<String>, active: &ActiveFile, date: Date) -> (max: u32)
    ensures
        max == greatest_sequence(
            texts(names@),
            active.stem_text(),
            active.extension_text(),
            date,
        ),
{
    let stem: String = active.stem();
    let ext: String = active.extension();
    let mut max: u32 = 0;
    let mut i: usize = 0;
    assert(texts(names@).take(0) =~= Seq::<Seq<char>>::empty());
    while i < names.len()
        invariant
            i <= names@.len(),
            stem@ == active.stem_text(),
            ext@ == active.extension_text(),
            max == greatest_sequence(texts(names@).take(i as int), stem@, ext@, date),
        decreases names@.len() - i,
    {
        proof {
            let longer = texts(names@).take(i + 1);
            assert(longer.drop_last() =~= texts(names@).take(i as int));
            assert(longer.last() == names@[i as int]@);
        }
        if let Some(parts) = parse_rotated_filename(
            names[i].as_str(),
            stem.as_str(),
            ext.as_str(),
        ) {
            if parts.date == date && parts.seq > max {
                max = parts.seq;
            }
        }
        i += 1;
    }
    assert(texts(names@).take(names@.len() as int) =~= texts(names@));
    max
}

/// The next free sequence number of a day, given the names in the directory: one more than the
/// greatest in use, 1 where none is. The greatest in use must leave room for one more.
pub fn next_sequence(names: &Vec<String>, active: &ActiveFile, date: Date) -> (next: u32)
    requires
        greatest_sequence(texts(names@), active.stem_text(), active.extension_text(), date)
            < u32::MAX,
    ensures
        next == 1 + greatest_sequence(
            texts(names@),
            active.stem_text(),
            active.extension_text(),
            date,
        ),
{
    max_sequence(names, active, date) + 1
}

/// The next free sequence number of a day, or `None` where the greatest possible is in use.
pub fn checked_next_sequence(names: &Vec<String>, active: &ActiveFile, date: Date) -> (next: Option<
    u32,
>)
    ensures
        ({
            let greatest = greatest_sequence(
                texts(names@),
                active.stem_text(),
                active.extension_text(),
                date,
            );
            match next {
                Some(n) => greatest < u32::MAX && n == greatest + 1,
                None => greatest == u32::MAX,
            }
        }),
{
    if max_sequence(names, active, date) == u32::MAX {
        None
    } else {
        Some(next_sequence(names, active, date))
    }
}

/// Whether a file last written on `modified` is to be rotated on the day `now`: the day it was
/// written on where that is another day, `None` where it is the same day or there is no file.
pub fn check_date_rotation(modified: Option<Date>, now: Date) -> (due: Option<Date>)
    ensures
        due == (match modified {
            Some(date) => if date != now {
                Some(date)
            } else {
                None
            },
            None => None,
        }),
{
    match modified {
        Some(date) => if date != now {
            Some(date)
        } else {
            None
        },
        None => None,
    }
}

/// Whether a file of `len` bytes exceeds `max_size`; a missing file does not.
pub fn should_rotate_by_size(len: Option<u64>, max_size: u64) -> (due: bool)
    ensures
        due == (len is Some && len->0 > max_size),
{
    match len {
        Some(len) => len > max_size,
        None => false,
    }
}

/// Four texts with dots between them.
pub open spec fn dotted(
    stem: Seq<char>,
    date: Seq<char>,
    number: Seq<char>,
    ext: Seq<char>,
) -> Seq<char> {
    stem + seq!['.'] + date + seq!['.'] + number + seq!['.'] + ext
}

/// A number has no dot in it.
proof fn lemma_no_dot(number: Seq<char>)
    requires
        u32_value(number) is Some,
    ensures
        !number.contains('.'),
{
    let digits = if number.len() > 0 && number[0] == '+' {
        number.drop_first()
    } else {
        number
    };
    if number.contains('.') {
        let i = choose|i: int| 0 <= i < number.len() && number[i] == '.';
        if number[0] == '+' {
            assert(digits[i - 1] == '.');
            assert(crate::text::is_digit(digits[i - 1]));
        } else {
            assert(crate::text::is_digit(digits[i]));
        }
    }
}

/// Parts are read from a name exactly if the name is the stem, a date, a number and the extension
/// with dots between them; they are that date and that number. So a name that does not start with
/// the stem and a dot, or does not end with a dot and the extension, has none.
pub proof fn law_parts_are_read_from_dotted_names(
    name: Seq<char>,
    stem: Seq<char>,
    ext: Seq<char>,
    parts: RotatedNameParts,
)
    ensures
        rotated_parts(name, stem, ext) == Some(parts) <==> exists|d: Seq<char>, s: Seq<char>|
            name == #[trigger] dotted(stem, d, s, ext) && parsed_date(d) == Some(parts.date)
                && u32_value(s) == Some(parts.seq),
        rotated_parts(name, stem, ext) is Some ==> stem.push('.') == name.take(
            stem.len() as int + 1,
        ) && seq!['.'] + ext == name.skip(name.len() - ext.len() - 1),
{
    let prefix = stem.push('.');
    let suffix = seq!['.'] + ext;
    if rotated_parts(name, stem, ext) is Some {
        let middle = name.subrange(prefix.len() as int, name.len() - suffix.len());
        middle.index_of_last_ensures('.');
        let dot = middle.index_of_last('.')->0;
        let (d, s) = (middle.take(dot), middle.skip(dot + 1));
        let head = name.subrange(0, prefix.len() as int);
        let tail = name.subrange(name.len() - suffix.len(), name.len() as int);
        assert(prefix == head && suffix == tail);
        assert(middle =~= d + seq!['.'] + s);
        assert(name =~= head + middle + tail);
        assert(name =~= dotted(stem, d, s, ext));
        assert(stem.push('.') =~= name.take(stem.len() as int + 1));
        assert(seq!['.'] + ext =~= name.skip(name.len() - ext.len() - 1));
    }
    if exists|d: Seq<char>, s: Seq<char>|
        name == #[trigger] dotted(stem, d, s, ext) && parsed_date(d) == Some(parts.date)
            && u32_value(s) == Some(parts.seq) {
        let (d, s) = choose|d: Seq<char>, s: Seq<char>|
            name == #[trigger] dotted(stem, d, s, ext) && parsed_date(d) == Some(parts.date)
                && u32_value(s) == Some(parts.seq);
        let middle = d + seq!['.'] + s;
        assert(prefix =~= name.subrange(0, prefix.len() as int));
        assert(suffix =~= name.subrange(name.len() - suffix.len(), name.len() as int));
        assert(name.subrange(prefix.len() as int, name.len() - suffix.len()) =~= middle);
        lemma_no_dot(s);
        middle.index_of_last_ensures('.');
        assert(middle[d.len() as int] == '.');
        assert forall|j: int| d.len() < j < middle.len() implies middle[j] != '.' by {
            assert(s.contains(s[j - d.len() - 1]));
        }
        assert(middle.index_of_last('.') == Some(d.len() as int));
        assert(middle.take(d.len() as int) =~= d);
        assert(middle.skip(d.len() as int + 1) =~= s);
    }
}

/// The name of a rotation is the stem, the date, the number and the extension with dots between
/// them. A missing stem or extension is `log`.
pub proof fn law_rotated_names_are_dotted(active: ActiveFile, date: Date, seq: u32)
    ensures
        rotated_name(active.stem_text(), date, seq, active.extension_text()) == dotted(
            match active.stem {
                Some(stem) => stem@,
                None => "log"@,
            },
            date.text(),
            decimal(seq as nat),
            match active.extension {
                Some(extension) => extension@,
                None => "log"@,
            },
        ),
{
    let (stem, ext) = (active.stem_text(), active.extension_text());
    assert(rotated_name(stem, date, seq, ext) =~= dotted(
        stem,
        date.text(),
        decimal(seq as nat),
        ext,
    ));
}

/// Whether a file name is that of a rotation of a day, with this number.
pub open spec fn is_rotation(
    name: Seq<char>,
    stem: Seq<char>,
    ext: Seq<char>,
    date: Date,
    seq: u32,
) -> bool {
    exists|d: Seq<char>, s: Seq<char>|
        name == #[trigger] dotted(stem, d, s, ext) && parsed_date(d) == Some(date) && u32_value(s)
            == Some(seq)
}

/// A name takes up the number of the rotation of the day that it is, and none where it is no rotation
/// of that very day.
pub proof fn law_a_rotation_takes_up_its_number(
    name: Seq<char>,
    stem: Seq<char>,
    ext: Seq<char>,
    date: Date,
)
    ensures
        forall|seq: u32| #[trigger]
            is_rotation(name, stem, ext, date, seq) ==> taken_sequence(name, stem, ext, date)
                == seq,
        !(exists|seq: u32| #[trigger] is_rotation(name, stem, ext, date, seq)) ==> taken_sequence(
            name,
            stem,
            ext,
            date,
        ) == 0,
{
    assert forall|seq: u32| #[trigger]
        is_rotation(name, stem, ext, date, seq) implies taken_sequence(name, stem, ext, date)
        == seq by {
        law_parts_are_read_from_dotted_names(name, stem, ext, RotatedNameParts { date, seq });
    }
    if let Some(parts) = rotated_parts(name, stem, ext) {
        law_parts_are_read_from_dotted_names(name, stem, ext, parts);
        if parts.date == date {
            assert(is_rotation(name, stem, ext, date, parts.seq));
        }
    }
}

/// A rotation of one day takes up its number on that day, and none on another. The day must be one
/// that is read back from its text, as `Date::to_text` ensures of every valid date.
pub proof fn law_days_do_not_share_numbers(
    stem: Seq<char>,
    ext: Seq<char>,
    day: Date,
    other: Date,
    seq: u32,
)
    requires
        parsed_date(day.text()) == Some(day),
        other != day,
    ensures
        taken_sequence(rotated_name(stem, day, seq, ext), stem, ext, day) == seq,
        taken_sequence(rotated_name(stem, day, seq, ext), stem, ext, other) == 0,
{
    law_rotated_name_reads_back(stem, day, seq, ext);
}

/// The greatest number of a day is that of a rotation of that very day which no other exceeds, and 0
/// where there is no rotation of that day.
pub proof fn law_the_greatest_number_is_of_the_day(
    names: Seq<Seq<char>>,
    stem: Seq<char>,
    ext: Seq<char>,
    date: Date,
    i: int,
    seq: u32,
)
    ensures
        (forall|j: int, n: u32|
            0 <= j < names.len() ==> !#[trigger] is_rotation(names[j], stem, ext, date, n))
            ==> greatest_sequence(names, stem, ext, date) == 0,
        0 <= i < names.len() && is_rotation(names[i], stem, ext, date, seq) && (forall|
            j: int,
            n: u32,
        |
            0 <= j < names.len() && #[trigger] is_rotation(names[j], stem, ext, date, n) ==> n
                <= seq) ==> greatest_sequence(names, stem, ext, date) == seq,
{
    let greatest = greatest_sequence(names, stem, ext, date);
    law_greatest_sequence_bounds(names, stem, ext, date);
    if greatest > 0 {
        let j = choose|j: int|
            0 <= j < names.len() && taken_sequence(#[trigger] names[j], stem, ext, date)
                == greatest;
        law_a_rotation_takes_up_its_number(names[j], stem, ext, date);
        assert(is_rotation(names[j], stem, ext, date, greatest));
    }
    if 0 <= i < names.len() && is_rotation(names[i], stem, ext, date, seq) {
        law_a_rotation_takes_up_its_number(names[i], stem, ext, date);
        assert(taken_sequence(names[i], stem, ext, date) <= greatest);
    }
}

/// A file that was last written on another day is due on every day but that one, under the day it was
/// written on. One that was written today, or that is missing, is not.
pub proof fn law_a_file_is_due_once_its_day_is_over(
    modified: Option<Date>,
    now: Date,
    due: Option<Date>,
)
    requires
        call_ensures(check_date_rotation, (modified, now), due),
    ensures
        due is Some ==> due == modified && due != Some(now),
        due is None ==> modified is None || modified == Some(now),
{
}

/// A file that has exactly the greatest size allowed is not due, and one with a byte more is. Whatever
/// is due stays due when it grows or when less is allowed. A missing file is never due.
pub proof fn law_a_file_is_due_once_it_exceeds_its_size(
    len: u64,
    allowed: u64,
    due: bool,
    more: u64,
    less: u64,
    still: bool,
)
    requires
        call_ensures(should_rotate_by_size, (Some(len), allowed), due),
        call_ensures(should_rotate_by_size, (Some(more), less), still),
        len <= more,
        less <= allowed,
    ensures
        len == allowed ==> !due,
        len == allowed + 1 ==> due,
        due ==> still,
        forall|missing: bool| #[trigger]
            call_ensures(should_rotate_by_size, (None::<u64>, allowed), missing) ==> !missing,
{
}

} // verus!

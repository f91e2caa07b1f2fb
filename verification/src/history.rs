//! The history of a session: chat messages, one per line of a file.

use vstd::prelude::*;
use vstd::string::StrSliceExecFns;
use vstd::utf8::{decode_utf8, encode_utf8, valid_utf8};

use crate::text::{is_white_space, lemma_trimmed_is_itself, texts, trim, trimmed};

verus! {

/// The byte that ends a line.
pub const LINE_END: u8 = 10;

/// A message of a conversation.
#[derive(Clone, Debug, PartialEq, Eq)]
pub struct ChatMessage {
    pub role: String,
    pub content: String,
}

pub struct MessageView {
    pub role: Seq<char>,
    pub content: Seq<char>,
}

impl View for ChatMessage {
    type V = MessageView;

    open spec fn view(&self) -> MessageView {
        MessageView { role: self.role@, content: self.content@ }
    }
}

/// The views of a list of messages.
pub open spec fn messages_view(messages: Seq<ChatMessage>) -> Seq<MessageView> {
    messages.map_values(|m: ChatMessage| m@)
}

impl ChatMessage {
    /// A message of the user.
    pub fn user(content: &str) -> (message: ChatMessage)
        ensures
            message@ == (MessageView { role: "user"@, content: content@ }),
    {
        ChatMessage { role: "user".to_owned(), content: content.to_owned() }
    }

    /// A message of the assistant.
    pub fn assistant(content: &str) -> (message: ChatMessage)
        ensures
            message@ == (MessageView { role: "assistant"@, content: content@ }),
    {
        ChatMessage { role: "assistant".to_owned(), content: content.to_owned() }
    }

    /// The same message once more.
    pub fn duplicate(&self) -> (message: ChatMessage)
        ensures
            message@ == self@,
    {
        ChatMessage { role: self.role.clone(), content: self.content.clone() }
    }
}

/// What one line of a history file offers: its text without white space at the ends, or nothing
/// where the line is blank or is not text.
pub open spec fn line_texts(line: Seq<u8>) -> Seq<Seq<char>> {
    if valid_utf8(line) && trimmed(decode_utf8(line)).len() > 0 {
        seq![trimmed(decode_utf8(line))]
    } else {
        Seq::empty()
    }
}

/// The texts of the lines of a history file, without blank lines and lines that are not text.
pub open spec fn history_lines(content: Seq<u8>) -> Seq<Seq<char>>
    decreases content.len(),
    via history_lines_decreases
{
    if content.len() == 0 {
        Seq::empty()
    } else {
        match content.index_of_first(LINE_END) {
            Some(end) => line_texts(content.take(end)) + history_lines(content.skip(end + 1)),
            None => line_texts(content),
        }
    }
}

#[via_fn]
proof fn history_lines_decreases(content: Seq<u8>) {
    content.index_of_first_ensures(LINE_END);
}

/// The text that a line of a history file offers, if any.
fn line_text(line: &[u8]) -> (text: Option<String>)
    ensures
        text matches Some(t) ==> line_texts(line@) == seq![t@],
        text is None ==> line_texts(line@) == Seq::<Seq<char>>::empty(),
{
    match core::str::from_utf8(line) {
        Ok(text) => {
            proof {
                vstd::utf8::encode_utf8_decode_utf8(text@);
            }
            let text: String = trim(text);
            if text.as_str().is_empty() {
                None
            } else {
                Some(text)
            }
        },
        Err(_) => None,
    }
}

/// The texts of the lines of a history file, without blank lines and lines that are not text.
pub fn read_lines(content: &Vec<u8>) -> (lines: Vec<String>)
    ensures
        texts(lines@) == history_lines(content@),
{
    let mut lines: Vec<String> = Vec::new();
    let mut start: usize = 0;
    let mut at: usize = 0;
    assert(content@.skip(0) =~= content@);
    assert(texts(lines@) =~= Seq::<Seq<char>>::empty());
    assert(texts(lines@) + history_lines(content@) =~= history_lines(content@));
    while at < content.len()
        invariant
            start <= at <= content@.len(),
            forall|i: int| start <= i < at ==> content@[i] != LINE_END,
            texts(lines@) + history_lines(content@.skip(start as int)) == history_lines(content@),
        decreases content@.len() - at,
    {
        if content[at] == LINE_END {
            let ghost rest = content@.skip(start as int);
            let ghost before = lines@;
            let line: &[u8] = vstd::slice::slice_subrange(content.as_slice(), start, at);
            proof {
                rest.index_of_first_ensures(LINE_END);
                assert(rest[at - start] == LINE_END);
                let first = rest.index_of_first(LINE_END)->0;
                assert(rest.index_of_first(LINE_END) == Some(at - start)) by {
                    if first < at - start {
                        assert(content@[start + first] == rest[first]);
                    }
                }
                assert(rest.take(at - start) =~= line@);
                assert(rest.skip(at - start + 1) =~= content@.skip(at + 1));
            }
            if let Some(text) = line_text(line) {
                lines.push(text);
                assert(texts(lines@) =~= texts(before) + seq![text@]);
            } else {
                assert(texts(lines@) =~= texts(before) + Seq::<Seq<char>>::empty());
            }
            assert(texts(lines@) + history_lines(content@.skip(at + 1)) =~= texts(before)
                + history_lines(rest));
            start = at + 1;
        }
        at += 1;
    }
    let ghost rest = content@.skip(start as int);
    proof {
        rest.index_of_first_ensures(LINE_END);
    }
    if start < content.len() {
        let ghost before = lines@;
        let line: &[u8] = vstd::slice::slice_subrange(content.as_slice(), start, content.len());
        proof {
            assert(line@ =~= rest);
            assert(rest.index_of_first(LINE_END) is None) by {
                if let Some(i) = rest.index_of_first(LINE_END) {
                    assert(content@[start + i] == rest[i]);
                }
            }
        }
        if let Some(text) = line_text(line) {
            lines.push(text);
            assert(texts(lines@) =~= texts(before) + seq![text@]);
        } else {
            assert(texts(lines@) =~= texts(before) + Seq::<Seq<char>>::empty());
        }
    } else {
        assert(texts(lines@) + history_lines(rest) =~= texts(lines@));
    }
    lines
}

/// The bytes of a list of lines, each with its line end.
pub open spec fn framed(lines: Seq<Seq<char>>) -> Seq<u8>
    decreases lines.len(),
{
    if lines.len() == 0 {
        Seq::empty()
    } else {
        framed(lines.drop_last()) + encode_utf8(lines.last()).push(LINE_END)
    }
}

/// The bytes of a list of lines, each with its line end.
pub fn frame_lines(lines: &Vec<String>) -> (content: Vec<u8>)
    ensures
        content@ == framed(texts(lines@)),
{
    let ghost all = texts(lines@);
    let mut content: Vec<u8> = Vec::new();
    let mut i: usize = 0;
    assert(all.take(0) =~= Seq::<Seq<char>>::empty());
    while i < lines.len()
        invariant
            i <= lines@.len(),
            all == texts(lines@),
            content@ == framed(all.take(i as int)),
        decreases lines@.len() - i,
    {
        let ghost before = content@;
        let mut line: Vec<u8> = lines[i].as_str().as_bytes_vec();
        line.push(LINE_END);
        let ghost bytes = line@;
        content.append(&mut line);
        proof {
            assert(all.take(i + 1).drop_last() =~= all.take(i as int));
            assert(all.take(i + 1).last() == lines@[i as int]@);
            assert(content@ =~= before + bytes);
        }
        i += 1;
    }
    assert(all.take(all.len() as int) =~= all);
    content
}

/// Whether a text survives being written as a line: it is not empty, holds no line end, and neither
/// starts nor ends with white space.
pub open spec fn is_clean_line(text: Seq<char>) -> bool {
    &&& text.len() > 0
    &&& !text.contains('\n')
    &&& !is_white_space(text[0])
    &&& !is_white_space(text.last())
}

/// Whether a history file is empty or ends with a line end.
pub open spec fn is_complete(content: Seq<u8>) -> bool {
    content.len() == 0 || content.last() == LINE_END
}

proof fn lemma_no_line_end(text: Seq<char>)
    requires
        !text.contains('\n'),
    ensures
        !encode_utf8(text).contains(LINE_END),
{
    let bytes = encode_utf8(text);
    vstd::utf8::encode_utf8_valid_utf8(text);
    vstd::utf8::encode_utf8_decode_utf8(text);
    if bytes.contains(LINE_END) {
        let i = choose|i: int| 0 <= i < bytes.len() && bytes[i] == LINE_END;
        assert(vstd::utf8::is_leading_byte_width_1(bytes[i]));
        vstd::utf8::is_char_boundary_iff_is_leading_byte(bytes, i);
        vstd::utf8::decode_utf8_split(bytes, i);
        vstd::utf8::valid_utf8_split(bytes, i);
        let head = decode_utf8(bytes.subrange(0, i));
        let rest = bytes.subrange(i, bytes.len() as int);
        assert(rest[0] == LINE_END);
        assert(10u8 & 0x7f == 10u8) by (bit_vector);
        assert(vstd::utf8::decode_first_scalar(rest) == 10u32);
        assert(decode_utf8(rest)[0] == '\n');
        assert(text[head.len() as int] == '\n');
    }
}

/// Appending a clean line to a complete file appends its text to the texts of the file, and leaves
/// the file complete.
pub proof fn law_appended_line_is_read_last(content: Seq<u8>, text: Seq<char>)
    requires
        is_complete(content),
        is_clean_line(text),
    ensures
        history_lines(content + encode_utf8(text).push(LINE_END)) == history_lines(content).push(
            text,
        ),
        is_complete(content + encode_utf8(text).push(LINE_END)),
    decreases content.len(),
{
    let line = encode_utf8(text);
    let added = line.push(LINE_END);
    let whole = content + added;
    whole.index_of_first_ensures(LINE_END);
    if content.len() == 0 {
        assert(whole =~= added);
        lemma_no_line_end(text);
        vstd::utf8::encode_utf8_valid_utf8(text);
        vstd::utf8::encode_utf8_decode_utf8(text);
        lemma_trimmed_is_itself(text);
        assert(added[line.len() as int] == LINE_END);
        let end = whole.index_of_first(LINE_END)->0;
        assert(end == line.len()) by {
            if end < line.len() {
                assert(line[end] == LINE_END);
            }
        }
        assert(whole.take(end) =~= line);
        assert(whole.skip(end + 1) =~= Seq::<u8>::empty());
        assert(history_lines(whole.skip(end + 1)) =~= Seq::<Seq<char>>::empty());
        assert(history_lines(content) =~= Seq::<Seq<char>>::empty());
        assert(history_lines(whole) =~= history_lines(content).push(text));
    } else {
        content.index_of_first_ensures(LINE_END);
        assert(content[content.len() - 1] == LINE_END);
        let end = content.index_of_first(LINE_END)->0;
        assert(whole[end] == LINE_END);
        let first = whole.index_of_first(LINE_END)->0;
        assert(first == end) by {
            if first < end {
                assert(content[first] == LINE_END);
            }
            if end < first {
                assert(whole[end] != LINE_END);
            }
        }
        let rest = content.skip(end + 1);
        assert(whole.take(end) =~= content.take(end));
        assert(whole.skip(end + 1) =~= rest + added);
        if rest.len() > 0 {
            assert(rest.last() == content.last());
        }
        law_appended_line_is_read_last(rest, text);
        assert(history_lines(whole) =~= history_lines(content).push(text));
    }
}

/// Reading a file that was written from clean lines gives those lines back.
pub proof fn law_framed_lines_are_read_back(lines: Seq<Seq<char>>)
    requires
        forall|i: int| 0 <= i < lines.len() ==> is_clean_line(#[trigger] lines[i]),
    ensures
        history_lines(framed(lines)) == lines,
        is_complete(framed(lines)),
    decreases lines.len(),
{
    if lines.len() == 0 {
        assert(history_lines(framed(lines)) =~= lines);
    } else {
        let fewer = lines.drop_last();
        assert forall|i: int| 0 <= i < fewer.len() implies is_clean_line(#[trigger] fewer[i]) by {
            assert(fewer[i] == lines[i]);
        }
        law_framed_lines_are_read_back(fewer);
        law_appended_line_is_read_last(framed(fewer), lines.last());
        assert(lines =~= fewer.push(lines.last()));
    }
}

/// A history file is read line by line: the texts of two pieces with a line end between them are
/// those of the first, and then those of the second, whatever the pieces hold.
pub proof fn law_histories_join_at_line_ends(a: Seq<u8>, b: Seq<u8>)
    ensures
        history_lines(a.push(LINE_END) + b) == history_lines(a) + history_lines(b),
    decreases a.len(),
{
    let whole = a.push(LINE_END) + b;
    whole.index_of_first_ensures(LINE_END);
    a.index_of_first_ensures(LINE_END);
    assert(whole[a.len() as int] == LINE_END);
    let end = whole.index_of_first(LINE_END)->0;
    match a.index_of_first(LINE_END) {
        None => {
            assert(end == a.len()) by {
                if end < a.len() {
                    assert(a[end] == LINE_END);
                }
            }
            assert(whole.take(end) =~= a);
            assert(whole.skip(end + 1) =~= b);
            if a.len() == 0 {
                lemma_empty_line();
                assert(a =~= Seq::<u8>::empty());
                assert(history_lines(whole) =~= history_lines(b));
                assert(history_lines(a) + history_lines(b) =~= history_lines(b));
            }
        },
        Some(first) => {
            assert(end == first) by {
                assert(whole[first] == LINE_END);
                if end < first {
                    assert(a[end] == LINE_END);
                }
            }
            let rest = a.skip(first + 1);
            assert(whole.take(end) =~= a.take(first));
            assert(whole.skip(end + 1) =~= rest.push(LINE_END) + b);
            law_histories_join_at_line_ends(rest, b);
            let head = line_texts(a.take(first));
            assert(head + (history_lines(rest) + history_lines(b)) =~= (head + history_lines(rest))
                + history_lines(b));
        },
    }
}

proof fn lemma_empty_line()
    ensures
        line_texts(Seq::empty()) == Seq::<Seq<char>>::empty(),
{
    let nothing = Seq::<char>::empty();
    vstd::utf8::encode_utf8_decode_utf8(nothing);
    assert(encode_utf8(nothing) =~= Seq::<u8>::empty());
    assert(decode_utf8(Seq::<u8>::empty()) =~= nothing);
}

/// A single line offers its text without the white space at its ends, and nothing where it is blank
/// or is not text.
pub proof fn law_a_line_offers_its_text(line: Seq<u8>, text: Seq<char>)
    requires
        !line.contains(LINE_END),
    ensures
        line == encode_utf8(text) && trimmed(text).len() > 0 ==> history_lines(line) == seq![
            trimmed(text),
        ],
        line == encode_utf8(text) && trimmed(text).len() == 0 ==> history_lines(line) == Seq::<
            Seq<char>,
        >::empty(),
        !valid_utf8(line) ==> history_lines(line) == Seq::<Seq<char>>::empty(),
{
    line.index_of_first_ensures(LINE_END);
    lemma_empty_line();
    if line.len() == 0 {
        assert(line =~= Seq::<u8>::empty());
    }
    assert(history_lines(line) =~= line_texts(line));
    vstd::utf8::encode_utf8_valid_utf8(text);
    vstd::utf8::encode_utf8_decode_utf8(text);
}

/// The lines of two lists are written one list after the other, and each line is its text and a line
/// end.
pub proof fn law_lines_are_written_in_order(a: Seq<Seq<char>>, b: Seq<Seq<char>>, text: Seq<char>)
    ensures
        framed(a + b) == framed(a) + framed(b),
        framed(seq![text]) == encode_utf8(text) + seq![10u8],
        framed(Seq::empty()) == Seq::<u8>::empty(),
    decreases b.len(),
{
    reveal_with_fuel(framed, 2);
    assert(seq![text].drop_last() =~= Seq::<Seq<char>>::empty());
    assert(framed(seq![text]) =~= encode_utf8(text) + seq![10u8]);
    if b.len() == 0 {
        assert(a + b =~= a);
        assert(framed(a) + framed(b) =~= framed(a));
    } else {
        law_lines_are_written_in_order(a, b.drop_last(), text);
        assert((a + b).drop_last() =~= a + b.drop_last());
        assert(framed(a + b) =~= framed(a) + framed(b));
    }
}

} // verus!

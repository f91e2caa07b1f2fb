//! Which messages a history file holds, told of its lines.

use vstd::prelude::*;
use vstd::utf8::{encode_utf8, valid_utf8};

use crate::directory::Setting;
use crate::history::{
    history_lines, law_a_line_offers_its_text, law_histories_join_at_line_ends, MessageView,
    LINE_END,
};
use crate::session_store::known_messages;
use crate::text::trimmed;

verus! {

/// The messages are exactly the decoded lines that stand for one, all of them and in their order.
pub proof fn law_messages_are_the_lines_that_decode(decoded: Seq<Option<MessageView>>)
    ensures
        known_messages(decoded) == decoded.filter(|m: Option<MessageView>| m is Some).map_values(
            |m: Option<MessageView>| m->0,
        ),
    decreases decoded.len(),
{
    reveal(Seq::filter);
    let pred = |m: Option<MessageView>| m is Some;
    let get = |m: Option<MessageView>| m->0;
    let kept = decoded.filter(pred);
    if decoded.len() == 0 {
        assert(known_messages(decoded) =~= kept.map_values(get));
    } else {
        let fewer = decoded.drop_last();
        law_messages_are_the_lines_that_decode(fewer);
        assert(known_messages(fewer) == fewer.filter(pred).map_values(get));
        if decoded.last() is Some {
            assert(kept == fewer.filter(pred).push(decoded.last()));
            assert(kept.map_values(get) =~= fewer.filter(pred).map_values(get).push(
                decoded.last()->0,
            ));
        } else {
            assert(kept == fewer.filter(pred));
        }
    }
}

/// The messages of two lists of decoded lines are those of the first, and then those of the second.
pub proof fn law_messages_join(a: Seq<Option<MessageView>>, b: Seq<Option<MessageView>>)
    ensures
        known_messages(a + b) == known_messages(a) + known_messages(b),
    decreases b.len(),
{
    if b.len() == 0 {
        assert(a + b =~= a);
        assert(known_messages(a) + known_messages(b) =~= known_messages(a));
    } else {
        law_messages_join(a, b.drop_last());
        assert((a + b).drop_last() =~= a + b.drop_last());
        assert(known_messages(a + b) =~= known_messages(a) + known_messages(b));
    }
}

/// A line that stands for no message changes nothing: without it there are the same messages.
pub proof fn law_a_line_without_a_message_changes_nothing(
    decoded: Seq<Option<MessageView>>,
    i: int,
)
    requires
        0 <= i < decoded.len(),
        decoded[i] is None,
    ensures
        known_messages(decoded) == known_messages(decoded.remove(i)),
{
    let (a, b) = (decoded.take(i), decoded.skip(i + 1));
    let gap = seq![decoded[i]];
    reveal_with_fuel(known_messages, 2);
    assert(gap.drop_last() =~= Seq::<Option<MessageView>>::empty());
    assert(known_messages(gap) =~= Seq::<MessageView>::empty());
    law_messages_join(a + gap, b);
    law_messages_join(a, gap);
    law_messages_join(a, b);
    assert(decoded =~= a + gap + b);
    assert(decoded.remove(i) =~= a + b);
    assert(known_messages(a) + known_messages(gap) =~= known_messages(a));
}

/// The messages of a history file in two pieces with a line end between them are those of the first
/// piece, and then those of the second.
pub proof fn law_a_history_is_read_line_by_line(setting: Setting, a: Seq<u8>, b: Seq<u8>)
    ensures
        setting.read(a.push(LINE_END) + b) == setting.read(a) + setting.read(b),
{
    law_histories_join_at_line_ends(a, b);
    let (x, y) = (history_lines(a), history_lines(b));
    assert((x + y).map_values(setting.decode) =~= x.map_values(setting.decode) + y.map_values(
        setting.decode,
    ));
    law_messages_join(x.map_values(setting.decode), y.map_values(setting.decode));
}

/// A single line holds the message that its text stands for without the white space at its ends. A
/// line that is blank, is not text or stands for no message holds none.
pub proof fn law_a_line_holds_its_message(setting: Setting, line: Seq<u8>, text: Seq<char>)
    requires
        !line.contains(LINE_END),
    ensures
        !valid_utf8(line) ==> setting.read(line) == Seq::<MessageView>::empty(),
        line == encode_utf8(text) ==> setting.read(line) == if trimmed(text).len() == 0 {
            Seq::empty()
        } else {
            match (setting.decode)(trimmed(text)) {
                Some(message) => seq![message],
                None => Seq::empty(),
            }
        },
{
    law_a_line_offers_its_text(line, text);
    reveal_with_fuel(known_messages, 2);
    let lines = history_lines(line);
    let decoded = lines.map_values(setting.decode);
    if lines == Seq::<Seq<char>>::empty() {
        assert(decoded =~= Seq::empty());
    }
    if line == encode_utf8(text) && trimmed(text).len() > 0 {
        assert(decoded =~= seq![(setting.decode)(trimmed(text))]);
        assert(decoded.drop_last() =~= Seq::<Option<MessageView>>::empty());
        match (setting.decode)(trimmed(text)) {
            Some(message) => {
                assert(setting.read(line) =~= seq![message]);
            },
            None => {},
        }
    }
}

/// A corrupt line among others takes no message away: the file holds the messages of before it and
/// of after it.
pub proof fn law_a_corrupt_line_is_skipped_alone(
    setting: Setting,
    before: Seq<u8>,
    line: Seq<u8>,
    after: Seq<u8>,
)
    requires
        setting.read(line) == Seq::<MessageView>::empty(),
    ensures
        setting.read(before.push(LINE_END) + (line.push(LINE_END) + after)) == setting.read(before)
            + setting.read(after),
        setting.read(before.push(LINE_END) + line) == setting.read(before),
{
    law_a_history_is_read_line_by_line(setting, before, line.push(LINE_END) + after);
    law_a_history_is_read_line_by_line(setting, line, after);
    law_a_history_is_read_line_by_line(setting, before, line);
    assert(setting.read(line) + setting.read(after) =~= setting.read(after));
    assert(setting.read(before) + setting.read(line) =~= setting.read(before));
}

} // verus!

//! What holds of the protocol as a whole: what is written in the usual form is read back.
use vstd::prelude::*;
use vstd::utf8::{
    char_is_scalar, char_u32_cast, decode_utf8, encode_scalar, encode_utf8, encode_utf8_decode_utf8,
    encode_utf8_valid_utf8, has_width_1_encoding, has_width_2_encoding, has_width_3_encoding,
    is_ascii_chars, is_ascii_chars_encode_utf8, last_continuation_byte, leading_byte_width_1,
    leading_byte_width_2, leading_byte_width_3, leading_byte_width_4, second_last_continuation_byte,
    third_last_continuation_byte, valid_utf8,
};

use crate::outside::json_flag;
use crate::text::{
    decimal, first_white, is_white, is_word, law_decimal_reads_back, law_trimmed_empty, number_of,
    trimmed, trimmed_end, trimmed_start, words,
};
use crate::wire::{
    after, command_meaning, command_reading, connect_meaning, connect_of, frame, info_of,
    lemma_first_white_at, lemma_line_length_at, line_content, line_length, line_meaning,
    payload_reading, publish_meaning, publish_of, read_outcome, reply_part, subscribe_meaning,
    unsubscribe_meaning, viewed, ClientCommand, CommandView, HeaderView, InfoMessage, InfoView,
    Line, LineView, MessageView, PublishHeader, ReadView, ServerMessage, WireError, WireErrorView,
    VERSION,
};

verus! {

proof fn lemma_encode_concat(a: Seq<char>, b: Seq<char>)
    ensures
        encode_utf8(a + b) == encode_utf8(a) + encode_utf8(b),
    decreases a.len(),
{
    if a.len() == 0 {
        assert(a + b =~= b);
        assert(encode_utf8(a) + encode_utf8(b) =~= encode_utf8(b));
    } else {
        assert((a + b).drop_first() =~= a.drop_first() + b);
        lemma_encode_concat(a.drop_first(), b);
        assert((a + b)[0] == a[0]);
        assert(encode_utf8(a + b) =~= encode_utf8(a) + encode_utf8(b));
    }
}

proof fn lemma_scalar_bytes(c: u32)
    by (bit_vector)
    requires
        c < 0x110000,
    ensures
        c < 0x80 ==> leading_byte_width_1(c) == c,
        0x80 <= c < 0x800 ==> leading_byte_width_2(c) >= 0x80,
        0x800 <= c < 0x10000 ==> leading_byte_width_3(c) >= 0x80,
        0x10000 <= c ==> leading_byte_width_4(c) >= 0x80,
        last_continuation_byte(c) >= 0x80,
        second_last_continuation_byte(c) >= 0x80,
        third_last_continuation_byte(c) >= 0x80,
{
}

/// A text without a line feed has no line feed among its bytes.
proof fn lemma_encode_no_feed(s: Seq<char>)
    requires
        !s.contains('\n'),
    ensures
        forall|i: int| 0 <= i < encode_utf8(s).len() ==> #[trigger] encode_utf8(s)[i] != 10,
    decreases s.len(),
{
    if s.len() > 0 {
        let rest = s.drop_first();
        assert forall|i: int| 0 <= i < rest.len() implies rest[i] != '\n' by {
            assert(s[i + 1] == rest[i]);
        }
        lemma_encode_no_feed(rest);
        let c = s[0] as u32;
        char_is_scalar(s[0]);
        lemma_scalar_bytes(c);
        assert(s[0] != '\n');
        let head = encode_scalar(c);
        let tail = encode_utf8(rest);
        let lead2 = leading_byte_width_2(c);
        let lead3 = leading_byte_width_3(c);
        let lead4 = leading_byte_width_4(c);
        let b1 = last_continuation_byte(c);
        let b2 = second_last_continuation_byte(c);
        let b3 = third_last_continuation_byte(c);
        if has_width_1_encoding(c) {
            assert(head =~= seq![leading_byte_width_1(c)]);
            char_u32_cast(s[0], c);
            assert(c as char != 10u32 as char);
            assert(head[0] != 10);
        } else if has_width_2_encoding(c) {
            assert(head =~= seq![lead2, b1]);
            assert(head[0] != 10 && head[1] != 10);
        } else if has_width_3_encoding(c) {
            assert(head =~= seq![lead3, b2, b1]);
            assert(head[0] != 10 && head[1] != 10 && head[2] != 10);
        } else {
            assert(head =~= seq![lead4, b3, b2, b1]);
            assert(head[0] != 10 && head[1] != 10 && head[2] != 10 && head[3] != 10);
        }
        assert(forall|i: int| 0 <= i < head.len() ==> #[trigger] head[i] != 10);
        assert forall|i: int| 0 <= i < encode_utf8(s).len() implies #[trigger] encode_utf8(s)[i]
            != 10 by {
            if i < head.len() {
                assert(encode_utf8(s)[i] == head[i]);
            } else {
                assert(encode_utf8(s)[i] == tail[i - head.len()]);
            }
        }
    }
}

proof fn lemma_crlf()
    ensures
        "\r\n"@ == seq!['\r', '\n'],
        encode_utf8("\r\n"@) == seq![13u8, 10u8],
{
    reveal_strlit("\r\n");
    assert("\r\n"@ =~= seq!['\r', '\n']);
    assert(is_ascii_chars("\r\n"@));
    is_ascii_chars_encode_utf8("\r\n"@);
    assert("\r\n"@[0] as u8 == 13);
    assert("\r\n"@[1] as u8 == 10);
    assert(encode_utf8("\r\n"@) =~= seq![13u8, 10u8]);
}

/// `text` is what a line can hold between its ends: no white space at either end and no line
/// feed.
pub open spec fn is_line_text(text: Seq<char>) -> bool {
    &&& text.len() > 0
    &&& !is_white(text[0])
    &&& !is_white(text.last())
    &&& !text.contains('\n')
}

/// The bytes of the line `text`.
pub open spec fn line_of(text: Seq<char>) -> Seq<u8> {
    encode_utf8(text + "\r\n"@)
}

proof fn lemma_plain_line(text: Seq<char>, rest: Seq<u8>)
    requires
        is_line_text(text),
    ensures
        line_of(text) == encode_utf8(text) + seq![13u8, 10u8],
        line_content(line_of(text)) == encode_utf8(text),
        line_meaning(line_of(text)) == command_meaning(text),
        line_length(line_of(text) + rest) == line_of(text).len(),
{
    let line = line_of(text);
    let content = encode_utf8(text);
    lemma_crlf();
    lemma_encode_concat(text, "\r\n"@);
    lemma_encode_no_feed(text);
    assert(line =~= content + seq![13u8, 10u8]);
    assert(line.drop_last() =~= content.push(13u8));
    assert(line.drop_last().drop_last() =~= content);
    encode_utf8_valid_utf8(text);
    encode_utf8_decode_utf8(text);
    assert(trimmed_start(text) == text);
    assert(trimmed_end(text) == text);
    let input = line + rest;
    assert forall|j: int| 0 <= j < line.len() - 1 implies #[trigger] input[j] != 10 by {
        assert(input[j] == line[j]);
        if j < content.len() {
            assert(line[j] == content[j]);
        }
    }
    assert(input[line.len() - 1] == 10);
    lemma_line_length_at(input, line.len() as int);
}

/// Reading a line that is no PUB and not blank.
proof fn lemma_line_reading(text: Seq<char>, rest: Seq<u8>, command: CommandView)
    requires
        is_line_text(text),
        command_meaning(text) == Ok::<LineView, WireErrorView>(LineView::Command(command)),
    ensures
        command_reading(line_of(text) + rest) == (ReadView {
            outcome: Ok(Some(command)),
            taken: line_of(text).len(),
        }),
{
    let line = line_of(text);
    lemma_plain_line(text, rest);
    assert((line + rest).take(line.len() as int) =~= line);
}

/// A text that starts with the word `verb` and a space, and goes on with `args`.
proof fn lemma_verb(verb: Seq<char>, args: Seq<char>)
    requires
        is_word(verb),
        args.len() > 0,
        !is_white(args[0]),
        !is_white(args.last()),
        !args.contains('\n'),
    ensures
        is_line_text(verb.push(' ') + args),
        (verb.push(' ') + args).take(first_white(verb.push(' ') + args) as int) == verb,
        trimmed_start((verb.push(' ') + args).skip(first_white(verb.push(' ') + args) as int))
            == args,
{
    let text = verb.push(' ') + args;
    let n = verb.len() as int;
    assert forall|j: int| 0 <= j < n implies !is_white(#[trigger] text[j]) by {
        assert(text[j] == verb[j]);
    }
    assert(text[n] == ' ');
    lemma_first_white_at(text, n);
    assert(text.take(n) =~= verb);
    let tail = text.skip(n);
    assert(tail.drop_first() =~= args);
    assert(tail[0] == ' ');
    assert(trimmed_start(tail) == trimmed_start(args));
    assert(text.last() == args.last());
    assert(!is_white(verb[0]));
    assert forall|j: int| 0 <= j < text.len() implies text[j] != '\n' by {
        if j < n {
            assert(!is_white(verb[j]));
        } else if j > n {
            assert(text[j] == args[j - n - 1]);
        }
    }
}

/// A word after white space, or at the start, is one more word.
proof fn lemma_words_word(s: Seq<char>, w: Seq<char>)
    requires
        s.len() == 0 || is_white(s.last()),
        is_word(w),
    ensures
        words(s + w) == words(s).push(w),
    decreases w.len(),
{
    let t = s + w;
    assert(t.last() == w.last());
    assert(!is_white(w[w.len() - 1]));
    if w.len() == 1 {
        assert(t.drop_last() =~= s);
        assert(seq![w.last()] =~= w);
        if s.len() > 0 {
            assert(t[t.len() - 2] == s.last());
        }
    } else {
        let front = w.drop_last();
        assert forall|i: int| 0 <= i < front.len() implies !is_white(#[trigger] front[i]) by {
            assert(!is_white(w[i]));
        }
        lemma_words_word(s, front);
        assert(t.drop_last() =~= s + front);
        assert(t[t.len() - 2] == w[w.len() - 2]);
        assert(!is_white(w[w.len() - 2]));
        let before = words(s).push(front);
        assert(before.drop_last() =~= words(s));
        assert(front.push(w.last()) =~= w);
    }
}

/// A space ends a word and starts none.
proof fn lemma_words_space(s: Seq<char>)
    ensures
        words(s.push(' ')) == words(s),
{
    assert(s.push(' ').drop_last() =~= s);
}

/// `parts` with one space between each two neighbours.
pub open spec fn spaced(parts: Seq<Seq<char>>) -> Seq<char>
    decreases parts.len(),
{
    if parts.len() == 0 {
        Seq::<char>::empty()
    } else if parts.len() == 1 {
        parts[0]
    } else {
        spaced(parts.drop_last()).push(' ') + parts.last()
    }
}

/// Words with a space between each two of them are found again.
pub proof fn law_spaced_words(parts: Seq<Seq<char>>)
    requires
        parts.len() > 0,
        forall|i: int| 0 <= i < parts.len() ==> is_word(#[trigger] parts[i]),
    ensures
        words(spaced(parts)) == parts,
        is_line_text(spaced(parts)),
    decreases parts.len(),
{
    let last = parts[parts.len() - 1];
    assert(is_word(last));
    if parts.len() == 1 {
        lemma_words_word(Seq::<char>::empty(), last);
        assert(Seq::<char>::empty() + last =~= last);
        assert(words(last) =~= parts);
        assert(!is_white(last[0]));
        assert(!is_white(last[last.len() - 1]));
        assert forall|j: int| 0 <= j < last.len() implies last[j] != '\n' by {
            assert(!is_white(last[j]));
        }
    } else {
        let front = parts.drop_last();
        assert forall|i: int| 0 <= i < front.len() implies is_word(#[trigger] front[i]) by {
            assert(is_word(parts[i]));
        }
        law_spaced_words(front);
        let head = spaced(front).push(' ');
        lemma_words_space(spaced(front));
        lemma_words_word(head, last);
        assert(front.push(last) =~= parts);
        let text = head + last;
        assert(spaced(parts) == text);
        assert(text[0] == spaced(front)[0]);
        assert(text.last() == last.last());
        assert(!is_white(last[last.len() - 1]));
        assert forall|j: int| 0 <= j < text.len() implies text[j] != '\n' by {
            if j < spaced(front).len() {
                assert(text[j] == spaced(front)[j]);
            } else if j >= head.len() {
                assert(!is_white(last[j - head.len()]));
            }
        }
    }
}

/// The words after SUB.
pub open spec fn sub_words(
    subject: Seq<char>,
    queue_group: Option<Seq<char>>,
    sid: Seq<char>,
) -> Seq<Seq<char>> {
    match queue_group {
        Some(queue) => seq![subject, queue, sid],
        None => seq![subject, sid],
    }
}

/// A SUB line is read as the subscription that it writes.
pub proof fn law_sub_reads_back(
    subject: Seq<char>,
    queue_group: Option<Seq<char>>,
    sid: Seq<char>,
    rest: Seq<u8>,
)
    requires
        is_word(subject),
        queue_group matches Some(queue) ==> is_word(queue),
        is_word(sid),
    ensures
        command_reading(
            line_of("SUB "@ + spaced(sub_words(subject, queue_group, sid))) + rest,
        ) == (ReadView {
            outcome: Ok(Some(CommandView::Sub { subject, queue_group, sid })),
            taken: line_of("SUB "@ + spaced(sub_words(subject, queue_group, sid))).len(),
        }),
{
    let parts = sub_words(subject, queue_group, sid);
    let args = spaced(parts);
    reveal_strlit("SUB");
    reveal_strlit("SUB ");
    reveal_strlit("CONNECT");
    reveal_strlit("PING");
    reveal_strlit("PONG");
    assert("SUB "@ =~= "SUB"@.push(' '));
    assert forall|i: int| 0 <= i < parts.len() implies is_word(#[trigger] parts[i]) by {}
    law_spaced_words(parts);
    lemma_verb("SUB"@, args);
    assert("PING"@.len() == 4 && "PONG"@.len() == 4 && "CONNECT"@.len() == 7);
    lemma_line_reading(
        "SUB "@ + args,
        rest,
        CommandView::Sub { subject, queue_group, sid },
    );
}

/// The words after UNSUB.
pub open spec fn unsub_words(sid: Seq<char>, max_msgs: Option<u64>) -> Seq<Seq<char>> {
    match max_msgs {
        Some(max) => seq![sid, decimal(max as nat)],
        None => seq![sid],
    }
}

/// An UNSUB line is read as the request that it writes.
pub proof fn law_unsub_reads_back(sid: Seq<char>, max_msgs: Option<u64>, rest: Seq<u8>)
    requires
        is_word(sid),
    ensures
        command_reading(line_of("UNSUB "@ + spaced(unsub_words(sid, max_msgs))) + rest) == (
        ReadView {
            outcome: Ok(Some(CommandView::Unsub { sid, max_msgs })),
            taken: line_of("UNSUB "@ + spaced(unsub_words(sid, max_msgs))).len(),
        }),
{
    let parts = unsub_words(sid, max_msgs);
    let args = spaced(parts);
    reveal_strlit("UNSUB");
    reveal_strlit("UNSUB ");
    reveal_strlit("CONNECT");
    reveal_strlit("PING");
    reveal_strlit("PONG");
    reveal_strlit("SUB");
    assert("UNSUB "@ =~= "UNSUB"@.push(' '));
    if max_msgs is Some {
        law_decimal_reads_back(max_msgs->0 as nat, u64::MAX as nat);
    }
    assert forall|i: int| 0 <= i < parts.len() implies is_word(#[trigger] parts[i]) by {}
    law_spaced_words(parts);
    lemma_verb("UNSUB"@, args);
    assert("UNSUB"@.len() == 5 && "PING"@.len() == 4 && "PONG"@.len() == 4 && "CONNECT"@.len() == 7
        && "SUB"@.len() == 3);
    lemma_line_reading("UNSUB "@ + args, rest, CommandView::Unsub { sid, max_msgs });
}

/// The words after PUB.
pub open spec fn pub_words(
    subject: Seq<char>,
    reply_to: Option<Seq<char>>,
    length: nat,
) -> Seq<Seq<char>> {
    match reply_to {
        Some(reply) => seq![subject, reply, decimal(length)],
        None => seq![subject, decimal(length)],
    }
}

/// The bytes of a PUB.
pub open spec fn pub_frame(
    subject: Seq<char>,
    reply_to: Option<Seq<char>>,
    payload: Seq<u8>,
) -> Seq<u8> {
    line_of("PUB "@ + spaced(pub_words(subject, reply_to, payload.len()))) + payload + seq![
        13u8,
        10u8,
    ]
}

/// A PUB is read as the message that it writes, whatever bytes the payload holds.
pub proof fn law_pub_reads_back(
    subject: Seq<char>,
    reply_to: Option<Seq<char>>,
    payload: Seq<u8>,
    rest: Seq<u8>,
)
    requires
        is_word(subject),
        reply_to matches Some(reply) ==> is_word(reply),
        payload.len() <= usize::MAX,
    ensures
        command_reading(pub_frame(subject, reply_to, payload) + rest) == (ReadView {
            outcome: Ok(Some(CommandView::Pub { subject, reply_to, payload })),
            taken: pub_frame(subject, reply_to, payload).len(),
        }),
{
    let parts = pub_words(subject, reply_to, payload.len());
    let args = spaced(parts);
    reveal_strlit("PUB");
    reveal_strlit("PUB ");
    reveal_strlit("CONNECT");
    reveal_strlit("PING");
    reveal_strlit("PONG");
    reveal_strlit("SUB");
    reveal_strlit("UNSUB");
    assert("PUB "@ =~= "PUB"@.push(' '));
    law_decimal_reads_back(payload.len(), usize::MAX as nat);
    assert forall|i: int| 0 <= i < parts.len() implies is_word(#[trigger] parts[i]) by {}
    law_spaced_words(parts);
    lemma_verb("PUB"@, args);
    assert("UNSUB"@.len() == 5 && "PING"@.len() == 4 && "PONG"@.len() == 4 && "CONNECT"@.len() == 7
        && "PUB"@.len() == 3);
    assert("SUB"@[0] == 'S' && "PUB"@[0] == 'P');
    let text = "PUB "@ + args;
    let header = HeaderView { subject, reply_to, length: payload.len() };
    assert(command_meaning(text) == Ok::<LineView, WireErrorView>(LineView::Publish(header)));
    let line = line_of(text);
    let tail = payload + seq![13u8, 10u8] + rest;
    lemma_plain_line(text, tail);
    let input = pub_frame(subject, reply_to, payload) + rest;
    assert(input =~= line + tail);
    assert(input.take(line.len() as int) =~= line);
    assert(input.skip(line.len() as int) =~= tail);
    let n = payload.len() as int;
    assert(tail.take(n) =~= payload);
    assert(tail.subrange(n, n + 2) =~= seq![13u8, 10u8]);
}

/// PING is read as itself.
pub proof fn law_ping_reads_back(rest: Seq<u8>)
    ensures
        command_reading(line_of("PING"@) + rest) == (ReadView {
            outcome: Ok(Some(CommandView::Ping)),
            taken: line_of("PING"@).len(),
        }),
{
    reveal_strlit("PING");
    reveal_strlit("CONNECT");
    lemma_lone_verb("PING"@);
    assert("PING"@.len() == 4 && "CONNECT"@.len() == 7);
    lemma_line_reading("PING"@, rest, CommandView::Ping);
}

/// The server's own PONG is read as a PONG.
pub proof fn law_pong_frame_reads_back(info_json: Seq<char>, rest: Seq<u8>)
    ensures
        command_reading(frame(MessageView::Pong, info_json) + rest) == (ReadView {
            outcome: Ok(Some(CommandView::Pong)),
            taken: frame(MessageView::Pong, info_json).len(),
        }),
{
    reveal_strlit("PONG\r\n");
    reveal_strlit("PONG");
    reveal_strlit("PING");
    reveal_strlit("CONNECT");
    lemma_crlf();
    assert("PONG\r\n"@ =~= "PONG"@ + "\r\n"@);
    lemma_lone_verb("PONG"@);
    assert("PONG"@.len() == 4 && "CONNECT"@.len() == 7);
    assert("PONG"@[1] == 'O' && "PING"@[1] == 'I');
    lemma_line_reading("PONG"@, rest, CommandView::Pong);
}

proof fn lemma_lone_verb(verb: Seq<char>)
    requires
        verb.len() > 0,
        forall|i: int| 0 <= i < verb.len() ==> 'A' <= #[trigger] verb[i] <= 'Z',
    ensures
        is_line_text(verb),
        verb.take(first_white(verb) as int) == verb,
{
    lemma_first_white_at(verb, verb.len() as int);
    assert(verb.take(verb.len() as int) =~= verb);
    assert('A' <= verb[verb.len() - 1] <= 'Z');
    assert('A' <= verb[0] <= 'Z');
}

/// A blank line changes nothing but the number of bytes taken.
pub proof fn law_blank_lines_are_skipped(line: Seq<u8>, rest: Seq<u8>)
    requires
        line.len() > 0,
        line.last() == 10,
        forall|i: int| 0 <= i < line.len() - 1 ==> #[trigger] line[i] != 10,
        line_meaning(line) == Ok::<LineView, WireErrorView>(LineView::Blank),
    ensures
        command_reading(line + rest) == after(line.len(), command_reading(rest)),
{
    let input = line + rest;
    let n = line.len() as int;
    assert forall|j: int| 0 <= j < n - 1 implies #[trigger] input[j] != 10 by {
        assert(line[j] != 10);
    }
    assert(input[n - 1] == line[n - 1]);
    lemma_line_length_at(input, n);
    assert(input.take(n) =~= line);
    assert(input.skip(n) =~= rest);
}

/// The words of the header of a MSG.
pub open spec fn msg_words(
    subject: Seq<char>,
    sid: Seq<char>,
    reply_to: Option<Seq<char>>,
    length: nat,
) -> Seq<Seq<char>> {
    match reply_to {
        Some(reply) => seq!["MSG"@, subject, sid, reply, decimal(length)],
        None => seq!["MSG"@, subject, sid, decimal(length)],
    }
}

/// The header of a MSG without its line end.
spec fn msg_text(
    subject: Seq<char>,
    sid: Seq<char>,
    reply_to: Option<Seq<char>>,
    length: nat,
) -> Seq<char> {
    let start = "MSG "@ + subject + " "@ + sid;
    match reply_to {
        Some(reply) => start + " "@ + reply + " "@ + decimal(length),
        None => start + " "@ + decimal(length),
    }
}

proof fn lemma_spaced_push(parts: Seq<Seq<char>>, part: Seq<char>)
    requires
        parts.len() > 0,
    ensures
        spaced(parts.push(part)) == spaced(parts) + " "@ + part,
{
    reveal_strlit(" ");
    assert(" "@ =~= seq![' ']);
    assert(parts.push(part).drop_last() =~= parts);
    assert(spaced(parts).push(' ') =~= spaced(parts) + " "@);
}

proof fn lemma_msg_text(
    subject: Seq<char>,
    sid: Seq<char>,
    reply_to: Option<Seq<char>>,
    length: nat,
)
    ensures
        spaced(msg_words(subject, sid, reply_to, length)) == msg_text(
            subject,
            sid,
            reply_to,
            length,
        ),
{
    reveal_strlit("MSG");
    reveal_strlit("MSG ");
    reveal_strlit(" ");
    assert("MSG"@ + " "@ =~= "MSG "@);
    let one = seq!["MSG"@];
    assert(spaced(one) == "MSG"@);
    lemma_spaced_push(one, subject);
    let two = one.push(subject);
    lemma_spaced_push(two, sid);
    let three = two.push(sid);
    match reply_to {
        Some(reply) => {
            lemma_spaced_push(three, reply);
            lemma_spaced_push(three.push(reply), decimal(length));
            assert(msg_words(subject, sid, reply_to, length) =~= three.push(reply).push(
                decimal(length),
            ));
        },
        None => {
            lemma_spaced_push(three, decimal(length));
            assert(msg_words(subject, sid, reply_to, length) =~= three.push(decimal(length)));
        },
    }
}

proof fn lemma_msg_encoding(
    subject: Seq<char>,
    sid: Seq<char>,
    reply_to: Option<Seq<char>>,
    length: nat,
)
    ensures
        encode_utf8(msg_text(subject, sid, reply_to, length)) == encode_utf8("MSG "@) + encode_utf8(
            subject,
        ) + encode_utf8(" "@) + encode_utf8(sid) + reply_part(reply_to) + encode_utf8(" "@)
            + encode_utf8(decimal(length)),
{
    let number = decimal(length);
    let start = "MSG "@ + subject + " "@ + sid;
    lemma_encode_concat("MSG "@, subject);
    lemma_encode_concat("MSG "@ + subject, " "@);
    lemma_encode_concat("MSG "@ + subject + " "@, sid);
    lemma_encode_concat(start, " "@);
    match reply_to {
        Some(reply) => {
            lemma_encode_concat(start + " "@, reply);
            lemma_encode_concat(start + " "@ + reply, " "@);
            lemma_encode_concat(start + " "@ + reply + " "@, number);
            assert(encode_utf8(start) + encode_utf8(" "@) + encode_utf8(reply) =~= encode_utf8(
                start,
            ) + reply_part(reply_to));
        },
        None => {
            lemma_encode_concat(start + " "@, number);
            assert(encode_utf8(start) =~= encode_utf8(start) + reply_part(reply_to));
        },
    }
}

/// A receiver finds the parts of a MSG again: the first line holds the words of the header, and
/// after it come as many bytes of payload as the last word says.
pub proof fn law_message_frame_parts(
    subject: Seq<char>,
    sid: Seq<char>,
    reply_to: Option<Seq<char>>,
    payload: Seq<u8>,
    info_json: Seq<char>,
    rest: Seq<u8>,
)
    requires
        is_word(subject),
        is_word(sid),
        reply_to matches Some(reply) ==> is_word(reply),
    ensures
        ({
            let whole = frame(MessageView::Msg { subject, sid, reply_to, payload }, info_json)
                + rest;
            let n = line_length(whole) as int;
            let header = decode_utf8(line_content(whole.take(n)));
            let parts = msg_words(subject, sid, reply_to, payload.len());
            &&& words(header) == parts
            &&& number_of(parts.last(), payload.len()) == Some(payload.len())
            &&& whole.skip(n) == payload + seq![13u8, 10u8] + rest
        }),
{
    let parts = msg_words(subject, sid, reply_to, payload.len());
    let text = spaced(parts);
    law_decimal_reads_back(payload.len(), payload.len());
    assert(is_word("MSG"@)) by {
        reveal_strlit("MSG");
        assert("MSG"@ =~= seq!['M', 'S', 'G']);
    }
    assert forall|i: int| 0 <= i < parts.len() implies is_word(#[trigger] parts[i]) by {}
    law_spaced_words(parts);
    lemma_msg_text(subject, sid, reply_to, payload.len());
    lemma_msg_encoding(subject, sid, reply_to, payload.len());
    lemma_crlf();
    let tail = payload + seq![13u8, 10u8] + rest;
    let whole = frame(MessageView::Msg { subject, sid, reply_to, payload }, info_json) + rest;
    let line = line_of(text);
    lemma_plain_line(text, tail);
    assert(whole =~= line + tail);
    assert(whole.take(line.len() as int) =~= line);
    assert(whole.skip(line.len() as int) =~= tail);
    encode_utf8_decode_utf8(text);
}

proof fn lemma_decoded_three(a: Seq<char>, b: Seq<char>, c: Seq<char>)
    ensures
        valid_utf8(encode_utf8(a) + encode_utf8(b) + encode_utf8(c)),
        decode_utf8(encode_utf8(a) + encode_utf8(b) + encode_utf8(c)) == a + b + c,
{
    lemma_encode_concat(a, b);
    lemma_encode_concat(a + b, c);
    encode_utf8_valid_utf8(a + b + c);
    encode_utf8_decode_utf8(a + b + c);
}

/// The frames other than MSG are texts: what is told, between what marks it and the end of the
/// line, in full.
pub proof fn law_frames_are_texts(info: InfoView, info_json: Seq<char>, reason: Seq<char>)
    ensures
        valid_utf8(frame(MessageView::Info(info), info_json)),
        decode_utf8(frame(MessageView::Info(info), info_json)) == "INFO "@ + info_json + "\r\n"@,
        valid_utf8(frame(MessageView::Error(reason), info_json)),
        decode_utf8(frame(MessageView::Error(reason), info_json)) == "-ERR '"@ + reason + "'\r\n"@,
        decode_utf8(frame(MessageView::Okay, info_json)) == "+OK\r\n"@,
        decode_utf8(frame(MessageView::Pong, info_json)) == "PONG\r\n"@,
{
    lemma_decoded_three("INFO "@, info_json, "\r\n"@);
    lemma_decoded_three("-ERR '"@, reason, "'\r\n"@);
    encode_utf8_decode_utf8("+OK\r\n"@);
    encode_utf8_decode_utf8("PONG\r\n"@);
}

/// A MSG is a line with the subject, the identifier, the subject for replies if there is one and
/// the length of the payload, then the payload, byte for byte, and the end of a line.
pub proof fn law_msg_frames_are_a_line_and_the_payload(
    subject: Seq<char>,
    sid: Seq<char>,
    reply_to: Option<Seq<char>>,
    payload: Seq<u8>,
    info_json: Seq<char>,
)
    ensures
        frame(MessageView::Msg { subject, sid, reply_to, payload }, info_json) == encode_utf8(
            "MSG "@ + subject + " "@ + sid + match reply_to {
                Some(reply) => " "@ + reply,
                None => Seq::<char>::empty(),
            } + " "@ + decimal(payload.len()) + "\r\n"@,
        ) + payload + seq![13u8, 10u8],
{
    let a = "MSG "@ + subject;
    let b = a + " "@;
    let c = b + sid;
    let r = match reply_to {
        Some(reply) => " "@ + reply,
        None => Seq::<char>::empty(),
    };
    let d = c + r;
    let e = d + " "@;
    let f = e + decimal(payload.len());
    lemma_crlf();
    lemma_encode_concat("MSG "@, subject);
    lemma_encode_concat(a, " "@);
    lemma_encode_concat(b, sid);
    match reply_to {
        Some(reply) => {
            lemma_encode_concat(" "@, reply);
            lemma_encode_concat(c, r);
        },
        None => {
            assert(d =~= c);
        },
    }
    lemma_encode_concat(d, " "@);
    lemma_encode_concat(e, decimal(payload.len()));
    lemma_encode_concat(f, "\r\n"@);
    assert(frame(MessageView::Msg { subject, sid, reply_to, payload }, info_json) =~= encode_utf8(
        f + "\r\n"@,
    ) + payload + seq![13u8, 10u8]);
}

/// The view of a message shows what it holds.
pub proof fn law_messages_show_what_they_hold(message: ServerMessage)
    ensures
        match message {
            ServerMessage::Info(info) => message@ == MessageView::Info(info@),
            ServerMessage::Okay => message@ is Okay,
            ServerMessage::Pong => message@ is Pong,
            ServerMessage::Msg(m) => message@ == (MessageView::Msg {
                subject: m.subject@,
                sid: m.sid@,
                reply_to: match m.reply_to {
                    Some(reply) => Some(reply@),
                    None => None,
                },
                payload: m.payload@,
            }),
            ServerMessage::Error(reason) => message@ == MessageView::Error(reason@),
        },
{
}

/// The views of an announcement, of the first line of a PUB and of a line show what they hold.
pub proof fn law_lines_show_what_they_hold(info: InfoMessage, header: PublishHeader, line: Line)
    ensures
        info@.server_id == info.server_id@,
        info@.server_name == info.server_name@,
        info@.version == info.version@,
        info@.proto == info.proto,
        info@.host == info.host@,
        info@.port == info.port,
        info@.max_payload == info.max_payload,
        info@.headers == info.headers,
        info@.auth_required == info.auth_required,
        info@.tls_required == info.tls_required,
        info@.jetstream == info.jetstream,
        info@.now == info.now,
        header@.subject == header.subject@,
        header.reply_to matches Some(reply) ==> header@.reply_to == Some(reply@),
        header.reply_to is None ==> header@.reply_to is None,
        header@.length == header.length,
        match line {
            Line::Blank => line@ is Blank,
            Line::Command(command) => line@ == LineView::Command(command@),
            Line::Publish(h) => line@ == LineView::Publish(h@),
        },
{
}

/// An announcement tells the identifier, the port and the largest payload of the server, and the
/// time; the rest is the same for all.
pub proof fn law_announcements_tell_of_the_server(
    server_id: Seq<char>,
    port: u16,
    max_payload: usize,
    now: chrono::NaiveDateTime,
)
    ensures
        ({
            let info = info_of(server_id, port, max_payload, now);
            &&& info.server_id == server_id
            &&& info.server_name == "silent-nats"@
            &&& info.version == VERSION@
            &&& info.proto == 1
            &&& info.host == "0.0.0.0"@
            &&& info.port == port
            &&& info.max_payload == max_payload
            &&& info.headers == Some(false)
            &&& info.auth_required == Some(false)
            &&& info.tls_required == Some(false)
            &&& info.jetstream == Some(false)
            &&& info.now == now
        }),
{
}

/// The end of a line does not belong to what it holds, whether it is a line feed or a carriage
/// return and a line feed; nothing else is taken off.
pub proof fn law_line_ends_are_taken_off(x: Seq<u8>)
    ensures
        line_content(x + seq![13u8, 10u8]) == x,
        x.len() == 0 || x.last() != 13 ==> line_content(x.push(10)) == x,
        x.len() == 0 || x.last() != 10 ==> line_content(x) == x,
{
    let crlf = x + seq![13u8, 10u8];
    assert(crlf.drop_last() =~= x.push(13));
    assert(crlf.drop_last().drop_last() =~= x);
    assert(x.push(10).drop_last() =~= x);
}

/// The length of a line is where its first line feed ends, or that of the input if there is none.
pub proof fn law_lines_end_at_the_first_line_feed(input: Seq<u8>)
    ensures
        line_length(input) <= input.len(),
        input.len() > 0 ==> line_length(input) > 0,
        forall|j: int| 0 <= j < line_length(input) - 1 ==> #[trigger] input[j] != 10,
        line_length(input) < input.len() ==> input[line_length(input) - 1] == 10,
    decreases input.len(),
{
    if input.len() > 0 && input[0] != 10 {
        let rest = input.drop_first();
        law_lines_end_at_the_first_line_feed(rest);
        assert forall|j: int| 0 <= j < line_length(input) - 1 implies #[trigger] input[j] != 10 by {
            if j > 0 {
                assert(rest[j - 1] != 10);
            }
        }
    }
}

/// A line of white space asks for nothing, and one that is no text is refused. Any other means
/// what it means without the white space around it, however it ends.
pub proof fn law_lines_mean_what_their_text_means(text: Seq<char>, x: Seq<u8>)
    ensures
        line_meaning(encode_utf8(text) + seq![13u8, 10u8]) == if forall|i: int|
            0 <= i < text.len() ==> is_white(#[trigger] text[i]) {
            Ok::<LineView, WireErrorView>(LineView::Blank)
        } else {
            command_meaning(trimmed(text))
        },
        !valid_utf8(x) ==> line_meaning(x + seq![13u8, 10u8]) == Err::<LineView, WireErrorView>(
            WireErrorView::Utf8,
        ),
        x.len() == 0 || x.last() != 13 ==> line_meaning(x.push(10)) == line_meaning(
            x + seq![13u8, 10u8],
        ),
        x.len() == 0 || x.last() != 10 ==> line_meaning(x) == line_meaning(x + seq![13u8, 10u8]),
{
    law_line_ends_are_taken_off(encode_utf8(text));
    law_line_ends_are_taken_off(x);
    encode_utf8_valid_utf8(text);
    encode_utf8_decode_utf8(text);
    law_trimmed_empty(text);
}

proof fn lemma_first_word(verb: Seq<char>, c: char, args: Seq<char>)
    requires
        is_word(verb),
        is_white(c),
    ensures
        (verb.push(c) + args).take(first_white(verb.push(c) + args) as int) == verb,
        trimmed_start((verb.push(c) + args).skip(first_white(verb.push(c) + args) as int))
            == trimmed_start(args),
{
    let text = verb.push(c) + args;
    let n = verb.len() as int;
    assert forall|j: int| 0 <= j < n implies !is_white(#[trigger] text[j]) by {
        assert(text[j] == verb[j]);
    }
    assert(text[n] == c);
    lemma_first_white_at(text, n);
    assert(text.take(n) =~= verb);
    let tail = text.skip(n);
    assert(tail[0] == c);
    assert(tail.drop_first() =~= args);
}

/// The first word of a line says which command it is, and what follows the white space after it
/// are the arguments. No other words are known.
pub proof fn law_the_first_word_says_which_command(verb: Seq<char>, c: char, args: Seq<char>)
    requires
        is_word(verb),
        is_white(c),
    ensures
        ({
            let meaning = command_meaning(verb.push(c) + args);
            let rest = trimmed_start(args);
            &&& verb == "CONNECT"@ ==> meaning == match connect_meaning(rest) {
                Ok(command) => Ok(LineView::Command(command)),
                Err(error) => Err(error),
            }
            &&& verb == "PING"@ ==> meaning == Ok::<LineView, WireErrorView>(
                LineView::Command(CommandView::Ping),
            )
            &&& verb == "PONG"@ ==> meaning == Ok::<LineView, WireErrorView>(
                LineView::Command(CommandView::Pong),
            )
            &&& verb == "SUB"@ ==> meaning == match subscribe_meaning(rest) {
                Ok(command) => Ok(LineView::Command(command)),
                Err(error) => Err(error),
            }
            &&& verb == "UNSUB"@ ==> meaning == match unsubscribe_meaning(rest) {
                Ok(command) => Ok(LineView::Command(command)),
                Err(error) => Err(error),
            }
            &&& verb == "PUB"@ ==> meaning == match publish_meaning(rest) {
                Ok(header) => Ok(LineView::Publish(header)),
                Err(error) => Err(error),
            }
            &&& verb != "CONNECT"@ && verb != "PING"@ && verb != "PONG"@ && verb != "SUB"@ && verb
                != "UNSUB"@ && verb != "PUB"@ ==> meaning == Err::<LineView, WireErrorView>(
                WireErrorView::UnsupportedCommand(verb),
            )
        }),
{
    lemma_first_word(verb, c, args);
    lemma_verbs_differ();
}

proof fn lemma_verbs_differ()
    ensures
        "CONNECT"@ != "PING"@,
        "CONNECT"@ != "PONG"@,
        "CONNECT"@ != "SUB"@,
        "CONNECT"@ != "UNSUB"@,
        "CONNECT"@ != "PUB"@,
        "PING"@ != "PONG"@,
        "PING"@ != "SUB"@,
        "PING"@ != "UNSUB"@,
        "PING"@ != "PUB"@,
        "PONG"@ != "SUB"@,
        "PONG"@ != "UNSUB"@,
        "PONG"@ != "PUB"@,
        "SUB"@ != "UNSUB"@,
        "SUB"@ != "PUB"@,
        "UNSUB"@ != "PUB"@,
{
    reveal_strlit("CONNECT");
    reveal_strlit("PING");
    reveal_strlit("PONG");
    reveal_strlit("SUB");
    reveal_strlit("UNSUB");
    reveal_strlit("PUB");
    assert("CONNECT"@.len() == 7 && "PING"@.len() == 4 && "PONG"@.len() == 4 && "SUB"@.len() == 3
        && "UNSUB"@.len() == 5 && "PUB"@.len() == 3);
    assert("PING"@[1] == 'I' && "PONG"@[1] == 'O');
    assert("SUB"@[0] == 'S' && "PUB"@[0] == 'P');
}

/// A word alone on its line is a command without arguments.
pub proof fn law_a_word_alone_has_no_arguments(verb: Seq<char>, c: char)
    requires
        is_word(verb),
        is_white(c),
    ensures
        command_meaning(verb) == command_meaning(verb.push(c) + Seq::<char>::empty()),
{
    let none = Seq::<char>::empty();
    lemma_first_word(verb, c, none);
    assert forall|j: int| 0 <= j < verb.len() implies !is_white(#[trigger] verb[j]) by {}
    lemma_first_white_at(verb, verb.len() as int);
    assert(verb.take(verb.len() as int) =~= verb);
    assert(verb.skip(verb.len() as int) =~= none);
}

/// A SUB has two or three words after it: the subject, the queue if there are three, and the
/// identifier. With fewer something is missing, and with more they are refused as they stand.
pub proof fn law_sub_takes_two_or_three_words(rest: Seq<char>)
    ensures
        words(rest).len() < 2 ==> subscribe_meaning(rest) == Err::<CommandView, WireErrorView>(
            WireErrorView::MissingArgument("SUB"@),
        ),
        words(rest).len() == 2 ==> subscribe_meaning(rest) == Ok::<CommandView, WireErrorView>(
            CommandView::Sub { subject: words(rest)[0], queue_group: None, sid: words(rest)[1] },
        ),
        words(rest).len() == 3 ==> subscribe_meaning(rest) == Ok::<CommandView, WireErrorView>(
            CommandView::Sub {
                subject: words(rest)[0],
                queue_group: Some(words(rest)[1]),
                sid: words(rest)[2],
            },
        ),
        words(rest).len() > 3 ==> subscribe_meaning(rest) == Err::<CommandView, WireErrorView>(
            WireErrorView::InvalidArgument(rest),
        ),
{
}

/// An UNSUB has one or two words after it: the identifier, and the number of messages if there are
/// two. A second word that is no number is told, without one something is missing, and more words
/// are refused as they stand.
pub proof fn law_unsub_takes_one_or_two_words(rest: Seq<char>)
    ensures
        words(rest).len() == 0 ==> unsubscribe_meaning(rest) == Err::<CommandView, WireErrorView>(
            WireErrorView::MissingArgument("UNSUB"@),
        ),
        words(rest).len() == 1 ==> unsubscribe_meaning(rest) == Ok::<CommandView, WireErrorView>(
            CommandView::Unsub { sid: words(rest)[0], max_msgs: None },
        ),
        words(rest).len() == 2 ==> (number_of(words(rest)[1], u64::MAX as nat) matches Some(n)
            ==> unsubscribe_meaning(rest) == Ok::<CommandView, WireErrorView>(
            CommandView::Unsub { sid: words(rest)[0], max_msgs: Some(n as u64) },
        )),
        words(rest).len() == 2 && number_of(words(rest)[1], u64::MAX as nat) is None
            ==> unsubscribe_meaning(rest) == Err::<CommandView, WireErrorView>(
            WireErrorView::InvalidArgument("UNSUB 无法解析最大消息数: "@ + words(rest)[1]),
        ),
        words(rest).len() > 2 ==> unsubscribe_meaning(rest) == Err::<CommandView, WireErrorView>(
            WireErrorView::InvalidArgument(rest),
        ),
{
}

/// A PUB has two or three words after it: the subject, the subject for replies if there are three,
/// and the length. The second or third word is looked at first: one that is no number is told,
/// and only then more words are refused as they stand.
pub proof fn law_pub_takes_two_or_three_words(rest: Seq<char>)
    ensures
        words(rest).len() == 0 ==> publish_meaning(rest) == Err::<HeaderView, WireErrorView>(
            WireErrorView::MissingArgument("PUB subject"@),
        ),
        words(rest).len() == 1 ==> publish_meaning(rest) == Err::<HeaderView, WireErrorView>(
            WireErrorView::MissingArgument("PUB length"@),
        ),
        words(rest).len() == 2 ==> (number_of(words(rest)[1], usize::MAX as nat) matches Some(n)
            ==> publish_meaning(rest) == Ok::<HeaderView, WireErrorView>(
            HeaderView { subject: words(rest)[0], reply_to: None, length: n },
        )),
        words(rest).len() == 2 && number_of(words(rest)[1], usize::MAX as nat) is None
            ==> publish_meaning(rest) == Err::<HeaderView, WireErrorView>(
            WireErrorView::InvalidArgument("PUB 无法解析消息长度: "@ + words(rest)[1]),
        ),
        words(rest).len() == 3 ==> (number_of(words(rest)[2], usize::MAX as nat) matches Some(n)
            ==> publish_meaning(rest) == Ok::<HeaderView, WireErrorView>(
            HeaderView { subject: words(rest)[0], reply_to: Some(words(rest)[1]), length: n },
        )),
        words(rest).len() >= 3 && number_of(words(rest)[2], usize::MAX as nat) is None
            ==> publish_meaning(rest) == Err::<HeaderView, WireErrorView>(
            WireErrorView::InvalidArgument("PUB 无法解析消息长度: "@ + words(rest)[2]),
        ),
        words(rest).len() > 3 && number_of(words(rest)[2], usize::MAX as nat) is Some
            ==> publish_meaning(rest) == Err::<HeaderView, WireErrorView>(
            WireErrorView::InvalidArgument(rest),
        ),
{
}

/// A CONNECT holds its options as they stand, and of them what the JSON reader finds under
/// `verbose`; where that refuses them, its words are told.
pub proof fn law_connect_holds_its_options(
    rest: Seq<char>,
    options: Seq<char>,
    reading: Result<Option<bool>, Seq<char>>,
)
    ensures
        rest.len() == 0 ==> connect_meaning(rest) == Err::<CommandView, WireErrorView>(
            WireErrorView::MissingArgument("CONNECT"@),
        ),
        rest.len() > 0 ==> connect_meaning(rest) == connect_of(
            trimmed_start(rest),
            json_flag(trimmed_start(rest), "verbose"@),
        ),
        reading matches Ok(verbose) ==> connect_of(options, reading) == Ok::<
            CommandView,
            WireErrorView,
        >(CommandView::Connect { options, verbose }),
        reading matches Err(message) ==> connect_of(options, reading) == Err::<
            CommandView,
            WireErrorView,
        >(WireErrorView::Json(message)),
{
}

/// A PUB gets the payload that follows its line, byte for byte, and needs the end of a line after
/// it; the subjects are those of its line. An input that ends before that is reported and used up.
pub proof fn law_payloads_are_read_as_they_are(
    header: HeaderView,
    payload: Seq<u8>,
    trailer: Seq<u8>,
    rest: Seq<u8>,
)
    requires
        payload.len() == header.length,
        trailer.len() == 2,
    ensures
        payload_reading(header, payload + trailer + rest).taken == payload.len() + 2,
        payload_reading(header, payload + trailer + rest).outcome == if trailer[0] == 13
            && trailer[1] == 10 {
            Ok::<Option<CommandView>, WireErrorView>(
                Some(
                    CommandView::Pub {
                        subject: header.subject,
                        reply_to: header.reply_to,
                        payload,
                    },
                ),
            )
        } else {
            Err(WireErrorView::InvalidArgument("PUB 负载未以 CRLF 结尾"@))
        },
        rest.len() < header.length + 2 ==> payload_reading(header, rest) == (ReadView {
            outcome: Err(WireErrorView::Io("early eof"@)),
            taken: rest.len(),
        }),
{
    let n = payload.len() as int;
    let input = payload + trailer + rest;
    assert(input.take(n) =~= payload);
    assert(input.subrange(n, n + 2) =~= trailer);
    if trailer[0] == 13 && trailer[1] == 10 {
        assert(trailer =~= seq![13u8, 10u8]);
    }
}

/// A payload and what follows it make a PUB exactly if what follows is the end of a line.
pub proof fn law_payloads_end_with_a_line_end(
    header: HeaderView,
    payload: Seq<u8>,
    trailer: Seq<u8>,
)
    requires
        trailer.len() == 2,
    ensures
        publish_of(header, payload, trailer) is Ok <==> trailer[0] == 13 && trailer[1] == 10,
        publish_of(header, payload, trailer) matches Ok(command) ==> command == (CommandView::Pub {
            subject: header.subject,
            reply_to: header.reply_to,
            payload,
        }),
        publish_of(header, payload, trailer) matches Err(error) ==> error
            == WireErrorView::InvalidArgument("PUB 负载未以 CRLF 结尾"@),
{
    if trailer[0] == 13 && trailer[1] == 10 {
        assert(trailer =~= seq![13u8, 10u8]);
    }
}

/// Reading goes line by line: the first line of the input is a command or is at fault, announces a
/// payload that follows it, or is blank, and then the next line is the first. An empty input holds
/// nothing.
pub proof fn law_reading_goes_line_by_line(input: Seq<u8>)
    ensures
        input.len() == 0 ==> command_reading(input).outcome == Ok::<
            Option<CommandView>,
            WireErrorView,
        >(None) && command_reading(input).taken == 0,
        input.len() > 0 ==> ({
            let n = line_length(input) as int;
            let r = command_reading(input);
            match line_meaning(input.take(n)) {
                Err(error) => r.taken == n && r.outcome == Err::<
                    Option<CommandView>,
                    WireErrorView,
                >(error),
                Ok(LineView::Command(command)) => r.taken == n && r.outcome == Ok::<
                    Option<CommandView>,
                    WireErrorView,
                >(Some(command)),
                Ok(LineView::Publish(header)) => r.taken == n + payload_reading(
                    header,
                    input.skip(n),
                ).taken && r.outcome == payload_reading(header, input.skip(n)).outcome,
                Ok(LineView::Blank) => r.taken == n + command_reading(input.skip(n)).taken
                    && r.outcome == command_reading(input.skip(n)).outcome,
            }
        }),
{
}

/// The words of an error name what is at fault, as it stands.
pub proof fn law_wire_error_words(what: Seq<char>)
    ensures
        WireErrorView::Io(what).message() == "IO 错误: "@ + what,
        WireErrorView::Utf8.message() == "协议帧不是有效的 UTF-8 数据"@,
        WireErrorView::Json(what).message() == "JSON 解析失败: "@ + what,
        WireErrorView::UnsupportedCommand(what).message() == "未知或不支持的命令: "@ + what,
        WireErrorView::MissingArgument(what).message() == "命令参数缺失: "@ + what,
        WireErrorView::InvalidArgument(what).message() == "命令参数无效: "@ + what,
{
}

/// The view of an error shows what it holds, and so does that of a result.
pub proof fn law_wire_errors_show_what_they_hold(
    error: WireError,
    line: Result<Line, WireError>,
    read: Result<Option<ClientCommand>, WireError>,
)
    ensures
        match error {
            WireError::Io(what) => error@ == WireErrorView::Io(what@),
            WireError::Utf8 => error@ is Utf8,
            WireError::Json(what) => error@ == WireErrorView::Json(what@),
            WireError::UnsupportedCommand(what) => error@ == WireErrorView::UnsupportedCommand(
                what@,
            ),
            WireError::MissingArgument(what) => error@ == WireErrorView::MissingArgument(what@),
            WireError::InvalidArgument(what) => error@ == WireErrorView::InvalidArgument(what@),
        },
        line matches Ok(l) ==> viewed(line) == Ok::<LineView, WireErrorView>(l@),
        line matches Err(e) ==> viewed(line) == Err::<LineView, WireErrorView>(e@),
        read matches Ok(Some(command)) ==> read_outcome(read) == Ok::<
            Option<CommandView>,
            WireErrorView,
        >(Some(command@)),
        read matches Ok(None) ==> read_outcome(read) == Ok::<Option<CommandView>, WireErrorView>(
            None,
        ),
        read matches Err(e) ==> read_outcome(read) == Err::<Option<CommandView>, WireErrorView>(e@),
{
}

} // verus!

//! What calls of the functions on texts, subjects, the wire and connections give, and how calls
//! relate, in terms of what goes in and what comes out.
use vstd::prelude::*;
use vstd::utf8::{decode_utf8, encode_utf8, valid_utf8};

use crate::client::{
    command_handled, handle_command, handle_publish, law_pub_publishes_what_it_says,
    law_sub_subscribes_as_it_says, law_unsub_ends_or_limits_as_it_says, reaction_to, refuse,
    writer_result, ClientError, Effect, Reaction, Session, CHANNEL_SIZE,
};
use crate::outside::{is_id_digit, json_flag};
use crate::server::call_laws::announces;
use crate::server::publish::{Publication, TargetView};
use crate::server::{KeyView, ServerError, ServerState};
use crate::subjects::{
    law_blank_subjects_are_empty, law_covered_names_agree_with_the_subject,
    law_names_that_agree_are_covered, law_patterns_match_atom_by_atom,
    law_subject_errors_tell_of_the_first_fault, law_subjects_cover_names_of_their_length,
    law_tails_cover_no_shorter_names, law_valid_subjects, matches_tokens, subject_error, Atom,
    Subject, SubjectError,
};
use crate::table::{Table, TableKey};
use crate::text::{
    chars_of, contains_white, copy_bytes, copy_optional, decimal, decimal_text, has_white, is_white,
    is_word, joined, law_decimal_reads_back, law_first_white_is_the_first,
    law_numbers_are_written_in_digits, law_pieces_free_of_separator, law_split_joins_back,
    law_text_order_by_the_first_difference, law_trimming_takes_white_space_off_the_ends,
    law_trimming_the_start_takes_white_space, law_words_hold_no_white_space, number_of,
    parse_number, pieces, same_text, split_on, split_words, text_less, texts, trim, trim_start,
    trimmed, trimmed_start, words,
};
use crate::wire::{
    command_meaning, command_reading, connect_command, connect_meaning, finish_publish,
    info_message, info_message_at, line_content, line_meaning, parse_command, parse_connect,
    parse_publish, parse_subscribe, parse_unsubscribe, publish_meaning, read_command, read_line,
    read_outcome, split_command, subscribe_meaning, unsubscribe_meaning, viewed, write_message,
    ClientCommand, ConnectCommand, InfoMessage, Line, MessageView, OutboundMessage, PublishCommand,
    PublishHeader, ServerMessage, SubscribeCommand, UnsubscribeCommand, WireError, VERSION,
};
use crate::wire_laws::{
    law_connect_holds_its_options, law_frames_are_texts, law_line_ends_are_taken_off,
    law_lines_mean_what_their_text_means, law_msg_frames_are_a_line_and_the_payload,
    law_payloads_end_with_a_line_end, law_pub_reads_back, law_pub_takes_two_or_three_words,
    law_sub_reads_back, law_sub_takes_two_or_three_words, law_the_first_word_says_which_command,
    law_unsub_reads_back, law_unsub_takes_one_or_two_words, line_of, pub_frame, spaced, sub_words,
    unsub_words,
};

verus! {

/// A text is parsed exactly if it is a subject: each segment is a word, and only the last may be
/// `>`. The subject then has that text. Otherwise the error tells of the first faulty segment.
pub proof fn law_parsing_accepts_the_subjects(input: &str, res: Result<Subject, SubjectError>)
    requires
        call_ensures(Subject::parse, (input,), res),
    ensures
        res is Ok <==> forall|i: int|
            0 <= i < pieces(input@, '.').len() ==> is_word(#[trigger] pieces(input@, '.')[i]) && (
            pieces(input@, '.')[i] == seq!['>'] ==> i == pieces(input@, '.').len() - 1),
        res matches Ok(subject) ==> subject@ == input@,
        res matches Err(error) ==> match error {
            SubjectError::Empty => forall|i: int|
                0 <= i < input@.len() ==> is_white(#[trigger] input@[i]),
            SubjectError::EmptyToken { index } => index < pieces(input@, '.').len() && pieces(
                input@,
                '.',
            )[index as int].len() == 0 && forall|j: int|
                0 <= j < index ==> is_word(#[trigger] pieces(input@, '.')[j]),
            SubjectError::InvalidWhitespace { segment } => has_white(segment@) && pieces(
                input@,
                '.',
            ).contains(segment@),
            SubjectError::TrailingWildcard => exists|i: int|
                0 <= i < pieces(input@, '.').len() - 1 && #[trigger] pieces(input@, '.')[i]
                    == seq!['>'],
        },
{
    law_valid_subjects(input@);
    if let Err(error) = res {
        law_blank_subjects_are_empty(input@);
        if !(error is Empty) {
            let i = law_subject_errors_tell_of_the_first_fault(input@);
            assert(pieces(input@, '.').contains(pieces(input@, '.')[i]));
        }
    }
}

/// A subject without `>` covers only names of as many segments as it has, and with `>` only names
/// of at least as many as stand before it. Each segment that is no wildcard is that of the name.
pub proof fn law_subjects_cover_only_names_that_agree(subject: &Subject, target: &str, res: bool)
    requires
        call_ensures(Subject::matches, (subject, target), res),
        res,
    ensures
        pieces(subject@, '.').last() != seq!['>'] ==> pieces(target@, '.').len() == pieces(
            subject@,
            '.',
        ).len(),
        pieces(target@, '.').len() >= pieces(subject@, '.').len() - 1,
        forall|i: int|
            0 <= i < pieces(subject@, '.').len() && (i < pieces(subject@, '.').len() - 1 || pieces(
                subject@,
                '.',
            )[i] != seq!['>']) ==> #[trigger] pieces(subject@, '.')[i] == seq!['*'] || pieces(
                subject@,
                '.',
            )[i] == pieces(target@, '.')[i],
{
    law_tails_cover_no_shorter_names(subject@, target@);
    if pieces(subject@, '.').last() != seq!['>'] {
        law_subjects_cover_names_of_their_length(subject@, target@);
    }
    assert forall|i: int|
        0 <= i < pieces(subject@, '.').len() && (i < pieces(subject@, '.').len() - 1 || pieces(
            subject@,
            '.',
        )[i] != seq!['>']) implies #[trigger] pieces(subject@, '.')[i] == seq!['*'] || pieces(
        subject@,
        '.',
    )[i] == pieces(target@, '.')[i] by {
        if pieces(subject@, '.')[i] != seq!['*'] {
            law_covered_names_agree_with_the_subject(subject@, target@, i);
        }
    }
}

/// A subject covers every name that agrees with it, segment by segment, but for the wildcards.
pub proof fn law_subjects_cover_all_names_that_agree(subject: &Subject, target: &str, res: bool)
    requires
        call_ensures(Subject::matches, (subject, target), res),
        if pieces(subject@, '.').last() == seq!['>'] {
            pieces(target@, '.').len() >= pieces(subject@, '.').len() - 1
        } else {
            pieces(target@, '.').len() == pieces(subject@, '.').len()
        },
        forall|i: int|
            0 <= i < pieces(subject@, '.').len() && (i < pieces(subject@, '.').len() - 1 || pieces(
                subject@,
                '.',
            )[i] != seq!['>']) ==> #[trigger] pieces(subject@, '.')[i] == seq!['*'] || pieces(
                subject@,
                '.',
            )[i] == pieces(target@, '.')[i],
    ensures
        res,
{
    law_names_that_agree_are_covered(subject@, target@);
}

/// Atoms without a `Tail` match as many tokens as they are, each literal its own text.
pub proof fn law_atoms_match_as_many_tokens(pattern: &[Atom], tokens: &[&str], res: bool)
    requires
        call_ensures(matches_tokens, (pattern, tokens), res),
        forall|i: int| 0 <= i < pattern@.len() ==> !((#[trigger] pattern@[i]) is Tail),
    ensures
        res <==> pattern@.len() == tokens@.len() && forall|i: int|
            0 <= i < pattern@.len() ==> ((#[trigger] pattern@[i]) matches Atom::Literal(s) ==> s@
                == tokens@[i]@),
{
    law_patterns_match_atom_by_atom(pattern@, texts(tokens@));
}

/// The text of a subject is what it was parsed from, and the words of an error name the fault.
pub proof fn law_subjects_keep_their_text(
    subject: &Subject,
    raw: &str,
    error: &SubjectError,
    message: String,
)
    ensures
        call_ensures(Subject::raw, (subject,), raw) ==> raw@ == subject@,
        call_ensures(SubjectError::message, (error,), message) ==> match *error {
            SubjectError::Empty => message@ == "subject 不能为空"@,
            SubjectError::EmptyToken { index } => message@
                == "subject 不能包含连续的句点或空 segment，第 "@ + decimal(index as nat) + " 段无效"@,
            SubjectError::TrailingWildcard => message@ == "'>' 通配符必须作为最后一段出现"@,
            SubjectError::InvalidWhitespace { segment } => message@
                == "subject 段包含非法空白字符: "@ + segment@,
        },
{
}

/// What is trimmed is what stands between the white space at the ends.
pub proof fn law_trimmed_texts_lose_white_space(s: &str, start: &str, whole: &str)
    requires
        call_ensures(trim_start, (s,), start),
        call_ensures(trim, (s,), whole),
    ensures
        exists|n: int|
            0 <= n <= s@.len() && start@ == #[trigger] s@.skip(n) && (n < s@.len() ==> !is_white(
                s@[n],
            )) && forall|i: int| 0 <= i < n ==> is_white(#[trigger] s@[i]),
        exists|a: int, b: int|
            0 <= a <= b <= s@.len() && whole@ == #[trigger] s@.subrange(a, b) && (a < b
                ==> !is_white(s@[a]) && !is_white(s@[b - 1])) && forall|i: int|
                0 <= i < s@.len() && !(a <= i < b) ==> is_white(#[trigger] s@[i]),
{
    let n = law_trimming_the_start_takes_white_space(s@);
    assert(start@ == s@.skip(n));
    let ends = law_trimming_takes_white_space_off_the_ends(s@);
    assert(whole@ == s@.subrange(ends.0, ends.1));
}

/// The pieces of a text, joined by the separator, give the text back, and hold no separator.
pub proof fn law_split_texts_join_back(s: &str, sep: char, parts: Vec<&str>)
    requires
        call_ensures(split_on, (s, sep), parts),
    ensures
        joined(texts(parts@), sep) == s@,
        forall|i: int| 0 <= i < parts@.len() ==> !(#[trigger] parts@[i])@.contains(sep),
{
    law_split_joins_back(s@, sep);
    law_pieces_free_of_separator(s@, sep);
    assert forall|i: int| 0 <= i < parts@.len() implies !(#[trigger] parts@[i])@.contains(sep) by {
        assert(texts(parts@)[i] == parts@[i]@);
        assert(!pieces(s@, sep)[i].contains(sep));
    }
}

/// The words of a text hold no white space, and the first one of a line is what stands before its
/// first white space.
pub proof fn law_words_are_found(s: &str, parts: Vec<&str>, verb: &str, rest: &str, white: bool)
    requires
        call_ensures(split_words, (s,), parts),
        call_ensures(split_command, (s,), (verb, rest)),
        call_ensures(contains_white, (s,), white),
    ensures
        forall|i: int| 0 <= i < parts@.len() ==> is_word((#[trigger] parts@[i])@),
        texts(parts@) == words(s@),
        !has_white(verb@),
        verb@.len() <= s@.len(),
        verb@ == s@.take(verb@.len() as int),
        verb@.len() < s@.len() ==> is_white(s@[verb@.len() as int]),
        rest@ == trimmed_start(s@.skip(verb@.len() as int)),
        white <==> exists|i: int| 0 <= i < s@.len() && is_white(#[trigger] s@[i]),
{
    law_words_hold_no_white_space(s@);
    assert forall|i: int| 0 <= i < parts@.len() implies is_word((#[trigger] parts@[i])@) by {
        assert(texts(parts@)[i] == parts@[i]@);
        assert(is_word(words(s@)[i]));
    }
    law_first_white_is_the_first(s@);
}

/// What is written in decimal is read back; what is read is written in digits and is not too
/// large.
pub proof fn law_numbers_read_back(
    n: u64,
    written: String,
    text: &str,
    max: u64,
    read: Option<u64>,
)
    requires
        call_ensures(decimal_text, (n,), written),
        call_ensures(parse_number, (text, max), read),
    ensures
        text@ == written@ && n <= max ==> read == Some(n),
        text@ == written@ && n > max ==> read is None,
        read matches Some(m) ==> m <= max,
        read is Some ==> forall|i: int|
            0 <= i < text@.len() && !(i == 0 && text@[0] == '+') ==> '0' <= #[trigger] text@[i]
                <= '9',
        read is Some ==> text@.len() > 0 && (text@[0] == '+' ==> text@.len() > 1),
{
    law_decimal_reads_back(n as nat, n as nat);
    if n <= max {
        law_decimal_reads_back(n as nat, max as nat);
    }
    if read is Some {
        law_numbers_are_written_in_digits(text@, max as nat);
    }
}

/// Texts are told apart, and ordered by where they first differ.
pub proof fn law_texts_are_compared(a: &str, b: &str, same: bool, less: bool, n: int)
    requires
        call_ensures(same_text, (a, b), same),
        call_ensures(text_less, (a, b), less),
        0 <= n <= a@.len(),
        n <= b@.len(),
        a@.take(n) == b@.take(n),
        n < a@.len() && n < b@.len() ==> a@[n] != b@[n],
    ensures
        same <==> a@ == b@,
        less <==> n < b@.len() && (n == a@.len() || a@[n] < b@[n]),
{
    law_text_order_by_the_first_difference(a@, b@, n);
}

/// A message is written as the text that it is, or, for a MSG, as a line and the payload, byte for
/// byte.
pub proof fn law_messages_are_written_in_full(
    message: &ServerMessage,
    info_json: &str,
    bytes: Vec<u8>,
)
    requires
        call_ensures(write_message, (message, info_json), bytes),
    ensures
        match *message {
            ServerMessage::Info(_) => decode_utf8(bytes@) == "INFO "@ + info_json@ + "\r\n"@,
            ServerMessage::Okay => decode_utf8(bytes@) == "+OK\r\n"@,
            ServerMessage::Pong => decode_utf8(bytes@) == "PONG\r\n"@,
            ServerMessage::Error(reason) => decode_utf8(bytes@) == "-ERR '"@ + reason@ + "'\r\n"@,
            ServerMessage::Msg(m) => bytes@ == encode_utf8(
                "MSG "@ + m.subject@ + " "@ + m.sid@ + match m.reply_to {
                    Some(reply) => " "@ + reply@,
                    None => Seq::<char>::empty(),
                } + " "@ + decimal(m.payload@.len()) + "\r\n"@,
            ) + m.payload@ + seq![13u8, 10u8],
        },
{
    match *message {
        ServerMessage::Info(info) => {
            law_frames_are_texts(info@, info_json@, ""@);
        },
        ServerMessage::Msg(m) => {
            law_msg_frames_are_a_line_and_the_payload(
                m.subject@,
                m.sid@,
                match m.reply_to {
                    Some(reply) => Some(reply@),
                    None => None,
                },
                m.payload@,
                info_json@,
            );
        },
        ServerMessage::Error(reason) => {
            law_frames_are_texts(arbitrary(), info_json@, reason@);
        },
        _ => {
            law_frames_are_texts(arbitrary(), info_json@, ""@);
        },
    }
}

/// A SUB that is written is read as the subscription that it writes, and no more is taken.
pub proof fn law_written_subs_are_read(
    subject: Seq<char>,
    queue_group: Option<Seq<char>>,
    sid: Seq<char>,
    rest: Seq<u8>,
    input: &[u8],
    res: (Result<Option<ClientCommand>, WireError>, usize),
)
    requires
        is_word(subject),
        queue_group matches Some(queue) ==> is_word(queue),
        is_word(sid),
        input@ == line_of("SUB "@ + spaced(sub_words(subject, queue_group, sid))) + rest,
        call_ensures(read_command, (input,), res),
    ensures
        res.0 matches Ok(Some(ClientCommand::Sub(sub))) && {
            &&& sub.subject@ == subject
            &&& sub.queue_group matches Some(queue) ==> queue_group == Some(queue@)
            &&& sub.queue_group is None ==> queue_group is None
            &&& sub.sid@ == sid
        },
        res.1 == input@.len() - rest.len(),
{
    law_sub_reads_back(subject, queue_group, sid, rest);
}

/// An UNSUB that is written is read as what it writes, and no more is taken.
pub proof fn law_written_unsubs_are_read(
    sid: Seq<char>,
    max_msgs: Option<u64>,
    rest: Seq<u8>,
    input: &[u8],
    res: (Result<Option<ClientCommand>, WireError>, usize),
)
    requires
        is_word(sid),
        input@ == line_of("UNSUB "@ + spaced(unsub_words(sid, max_msgs))) + rest,
        call_ensures(read_command, (input,), res),
    ensures
        res.0 matches Ok(Some(ClientCommand::Unsub(unsub))) && unsub.sid@ == sid && unsub.max_msgs
            == max_msgs,
        res.1 == input@.len() - rest.len(),
{
    law_unsub_reads_back(sid, max_msgs, rest);
}

/// A PUB that is written is read as the message that it writes, payload and subject for replies
/// included, and no more is taken.
pub proof fn law_written_pubs_are_read(
    subject: Seq<char>,
    reply_to: Option<Seq<char>>,
    payload: Seq<u8>,
    rest: Seq<u8>,
    input: &[u8],
    res: (Result<Option<ClientCommand>, WireError>, usize),
)
    requires
        is_word(subject),
        reply_to matches Some(reply) ==> is_word(reply),
        payload.len() <= usize::MAX,
        input@ == pub_frame(subject, reply_to, payload) + rest,
        call_ensures(read_command, (input,), res),
    ensures
        res.0 matches Ok(Some(ClientCommand::Pub(publish))) && {
            &&& publish.subject@ == subject
            &&& publish.reply_to matches Some(reply) ==> reply_to == Some(reply@)
            &&& publish.reply_to is None ==> reply_to is None
            &&& publish.payload@ == payload
        },
        res.1 == input@.len() - rest.len(),
{
    law_pub_reads_back(subject, reply_to, payload, rest);
}

/// A line means what its text means without the white space around it; one of white space asks for
/// nothing, and one that is no text is refused.
pub proof fn law_lines_are_read(
    text: Seq<char>,
    x: Seq<u8>,
    line: Vec<u8>,
    res: Result<Line, WireError>,
)
    requires
        call_ensures(read_line, (line,), res),
    ensures
        line@ == encode_utf8(text) + seq![13u8, 10u8] && (forall|i: int|
            0 <= i < text.len() ==> is_white(#[trigger] text[i])) ==> (res matches Ok(l) && l
            is Blank),
        line@ == encode_utf8(text) + seq![13u8, 10u8] && !(forall|i: int|
            0 <= i < text.len() ==> is_white(#[trigger] text[i])) ==> !(res matches Ok(l) && l
            is Blank),
        line@ == x + seq![13u8, 10u8] && !valid_utf8(x) ==> (res matches Err(e) && e is Utf8),
        !valid_utf8(line_content(line@)) <==> (res matches Err(e) && e is Utf8),
{
    law_lines_mean_what_their_text_means(text, x);
    law_line_ends_are_taken_off(x);
    lemma_commands_are_no_faults(trimmed(decode_utf8(line_content(line@))));
    lemma_commands_are_no_faults(trimmed(text));
}

/// A line of text that is not blank is never blank nor no text.
proof fn lemma_commands_are_no_faults(line: Seq<char>)
    ensures
        !(command_meaning(line) matches Ok(l) && l is Blank),
        !(command_meaning(line) matches Err(e) && e is Utf8),
{
}

/// The first word of a line says which command it is; a word that is none is told.
pub proof fn law_commands_are_told_by_their_first_word(
    verb: Seq<char>,
    c: char,
    args: Seq<char>,
    line: &str,
    res: Result<Line, WireError>,
)
    requires
        is_word(verb),
        is_white(c),
        line@ == verb.push(c) + args,
        call_ensures(parse_command, (line,), res),
    ensures
        verb == "PING"@ ==> (res matches Ok(Line::Command(command)) && command is Ping),
        verb == "PONG"@ ==> (res matches Ok(Line::Command(command)) && command is Pong),
        res matches Ok(Line::Command(command)) ==> match command {
            ClientCommand::Connect(_) => verb == "CONNECT"@,
            ClientCommand::Ping => verb == "PING"@,
            ClientCommand::Pong => verb == "PONG"@,
            ClientCommand::Sub(_) => verb == "SUB"@,
            ClientCommand::Unsub(_) => verb == "UNSUB"@,
            ClientCommand::Pub(_) => false,
        },
        res matches Ok(Line::Publish(_)) ==> verb == "PUB"@,
        verb != "CONNECT"@ && verb != "PING"@ && verb != "PONG"@ && verb != "SUB"@ && verb
            != "UNSUB"@ && verb != "PUB"@ ==> (res matches Err(WireError::UnsupportedCommand(word))
            && word@ == verb),
{
    law_the_first_word_says_which_command(verb, c, args);
}

/// A SUB takes its subject, its queue and its identifier from its words, in this order.
pub proof fn law_subs_take_their_words(rest: &str, res: Result<ClientCommand, WireError>)
    requires
        call_ensures(parse_subscribe, (rest,), res),
    ensures
        res is Ok <==> words(rest@).len() == 2 || words(rest@).len() == 3,
        res matches Ok(command) ==> (command matches ClientCommand::Sub(sub) && {
            &&& sub.subject@ == words(rest@)[0]
            &&& sub.sid@ == words(rest@).last()
            &&& sub.queue_group is None <==> words(rest@).len() == 2
            &&& sub.queue_group matches Some(queue) ==> queue@ == words(rest@)[1]
        }),
        res matches Err(error) ==> match error {
            WireError::MissingArgument(what) => words(rest@).len() < 2 && what@ == "SUB"@,
            WireError::InvalidArgument(what) => words(rest@).len() > 3 && what@ == rest@,
            _ => false,
        },
{
    law_sub_takes_two_or_three_words(rest@);
}

/// An UNSUB takes its identifier and its number of messages from its words, in this order.
pub proof fn law_unsubs_take_their_words(rest: &str, res: Result<ClientCommand, WireError>)
    requires
        call_ensures(parse_unsubscribe, (rest,), res),
    ensures
        res is Ok <==> words(rest@).len() == 1 || (words(rest@).len() == 2 && number_of(
            words(rest@)[1],
            u64::MAX as nat,
        ) is Some),
        res matches Ok(command) ==> (command matches ClientCommand::Unsub(unsub) && {
            &&& unsub.sid@ == words(rest@)[0]
            &&& unsub.max_msgs is None <==> words(rest@).len() == 1
            &&& unsub.max_msgs matches Some(n) ==> number_of(words(rest@)[1], u64::MAX as nat)
                == Some(n as nat)
        }),
        res matches Err(error) ==> match error {
            WireError::MissingArgument(what) => words(rest@).len() == 0 && what@ == "UNSUB"@,
            WireError::InvalidArgument(what) => if words(rest@).len() > 2 {
                what@ == rest@
            } else {
                words(rest@).len() == 2 && what@ == "UNSUB 无法解析最大消息数: "@ + words(rest@)[1]
            },
            _ => false,
        },
{
    law_unsub_takes_one_or_two_words(rest@);
    if words(rest@).len() == 2 && number_of(words(rest@)[1], u64::MAX as nat) is Some {
        law_numbers_are_written_in_digits(words(rest@)[1], u64::MAX as nat);
    }
}

/// A PUB takes its subject, its subject for replies and its length from its words, in this order.
pub proof fn law_pubs_take_their_words(rest: &str, res: Result<PublishHeader, WireError>)
    requires
        call_ensures(parse_publish, (rest,), res),
    ensures
        res matches Ok(header) ==> {
            &&& words(rest@).len() == 2 || words(rest@).len() == 3
            &&& header.subject@ == words(rest@)[0]
            &&& header.reply_to is None <==> words(rest@).len() == 2
            &&& header.reply_to matches Some(reply) ==> reply@ == words(rest@)[1]
            &&& number_of(words(rest@).last(), usize::MAX as nat) == Some(header.length as nat)
        },
        (words(rest@).len() == 2 || words(rest@).len() == 3) && number_of(
            words(rest@).last(),
            usize::MAX as nat,
        ) is Some ==> res is Ok,
        res matches Err(error) ==> match error {
            WireError::MissingArgument(what) => (words(rest@).len() == 0 && what@
                == "PUB subject"@) || (words(rest@).len() == 1 && what@ == "PUB length"@),
            WireError::InvalidArgument(what) => if words(rest@).len() > 3 && number_of(
                words(rest@)[2],
                usize::MAX as nat,
            ) is Some {
                what@ == rest@
            } else {
                words(rest@).len() >= 2 && what@ == "PUB 无法解析消息长度: "@ + words(rest@)[if words(
                    rest@,
                ).len() == 2 {
                    1int
                } else {
                    2int
                }]
            },
            _ => false,
        },
{
    law_pub_takes_two_or_three_words(rest@);
}

/// A PUB is completed with its payload as it is, exactly if the end of a line follows it.
pub proof fn law_pubs_are_completed(
    header: PublishHeader,
    payload: Vec<u8>,
    trailer: [u8; 2],
    res: Result<ClientCommand, WireError>,
)
    requires
        call_ensures(finish_publish, (header, payload, trailer), res),
    ensures
        res is Ok <==> trailer@[0] == 13 && trailer@[1] == 10,
        res matches Ok(command) ==> (command matches ClientCommand::Pub(publish) && {
            &&& publish.subject@ == header.subject@
            &&& publish.reply_to matches Some(reply) ==> (header.reply_to matches Some(r) && r@
                == reply@)
            &&& publish.reply_to is None <==> header.reply_to is None
            &&& publish.payload@ == payload@
        }),
        res matches Err(error) ==> (error matches WireError::InvalidArgument(what) && what@
            == "PUB 负载未以 CRLF 结尾"@),
{
    law_payloads_end_with_a_line_end(header@, payload@, trailer@);
}

/// A CONNECT holds its options as they stand, and what the JSON reader says of them; the words of
/// the reader are told where it refuses them.
pub proof fn law_connects_hold_what_the_reader_says(
    json: &str,
    reading: Result<Option<bool>, String>,
    res: Result<ClientCommand, WireError>,
    rest: &str,
    parsed: Result<ClientCommand, WireError>,
)
    requires
        call_ensures(connect_command, (json, reading), res),
        call_ensures(parse_connect, (rest,), parsed),
    ensures
        res is Ok <==> reading is Ok,
        res matches Ok(command) ==> (command matches ClientCommand::Connect(connect)
            && connect.options@ == json@ && Ok::<Option<bool>, String>(connect.verbose) == reading),
        res matches Err(error) ==> (error matches WireError::Json(words) && reading is Err && words@
            == reading->Err_0@),
        rest@.len() == 0 ==> (parsed matches Err(WireError::MissingArgument(what)) && what@
            == "CONNECT"@),
        rest@.len() > 0 ==> match json_flag(trimmed_start(rest@), "verbose"@) {
            Ok(verbose) => parsed matches Ok(ClientCommand::Connect(connect))
                && connect.options@ == trimmed_start(rest@) && connect.verbose == verbose,
            Err(words) => parsed matches Err(WireError::Json(told)) && told@ == words,
        },
{
    law_connect_holds_its_options(rest@, json@, json_flag(trimmed_start(rest@), "verbose"@));
}

/// What is announced is what was given.
pub proof fn law_announcements_are_made_of_what_is_given(
    server_id: String,
    port: u16,
    max_payload: usize,
    now: chrono::NaiveDateTime,
    info: InfoMessage,
)
    ensures
        call_ensures(info_message, (server_id, port, max_payload), info) ==> announces(
            info,
            server_id@,
            port,
            max_payload,
        ),
        call_ensures(info_message_at, (server_id, port, max_payload, now), info) ==> info.now == now
            && announces(info, server_id@, port, max_payload),
{
}

/// The words of an error on the wire name what is at fault, as it stands.
pub proof fn law_wire_errors_name_the_fault(error: &WireError, words: String)
    requires
        call_ensures(WireError::message, (error,), words),
    ensures
        match *error {
            WireError::Io(what) => words@ == "IO 错误: "@ + what@,
            WireError::Utf8 => words@ == "协议帧不是有效的 UTF-8 数据"@,
            WireError::Json(what) => words@ == "JSON 解析失败: "@ + what@,
            WireError::UnsupportedCommand(what) => words@ == "未知或不支持的命令: "@ + what@,
            WireError::MissingArgument(what) => words@ == "命令参数缺失: "@ + what@,
            WireError::InvalidArgument(what) => words@ == "命令参数无效: "@ + what@,
        },
{
}

/// The words of an error of a connection are those of what caused it.
pub proof fn law_client_errors_name_their_cause(error: &ClientError, words: String)
    requires
        call_ensures(ClientError::message, (error,), words),
    ensures
        match *error {
            ClientError::Io(what) => words@ == "IO 错误: "@ + what@,
            ClientError::Wire(e) => words@ == e@.message(),
            ClientError::Server(e) => words@ == e@.message(),
            ClientError::ChannelClosed => words@ == "客户端写通道已关闭"@,
            ClientError::Join(what) => words@ == "写循环 Join 失败: "@ + what@,
        },
{
}

/// A SUB that is handled subscribes its client as it says: under its identifier, to its subject, in
/// exactly the queue that it names, or in none if it names none.
pub proof fn law_handled_subs_subscribe(
    state: &mut ServerState,
    client_id: &str,
    sub: SubscribeCommand,
    res: Result<Effect, ClientError>,
)
    requires
        call_ensures(handle_command, (state, client_id, ClientCommand::Sub(sub)), res),
    ensures
        ({
            let key = KeyView { client_id: client_id@, sid: sub.sid@ };
            let entry = final(state)@.subscriptions[key];
            &&& res is Ok <==> subject_error(sub.subject@) is None && old(
                state)@.clients.contains_key(client_id@)
            &&& res is Ok ==> {
                &&& res->Ok_0 is Nothing
                &&& final(state)@.subscriptions.contains_key(key)
                &&& entry.subject == sub.subject@
                &&& sub.queue_group matches Some(queue) ==> entry.queue_group == Some(queue@)
                &&& sub.queue_group is None ==> entry.queue_group is None
                &&& entry.max_msgs is None
                &&& entry.delivered == 0
                &&& entry.sender == old(state)@.clients[client_id@]
            }
            &&& forall|k: KeyView|
                k != key ==> (#[trigger] final(state)@.subscriptions.contains_key(k) <==> old(
                    state)@.subscriptions.contains_key(k))
            &&& forall|k: KeyView|
                k != key && #[trigger] final(state)@.subscriptions.contains_key(k) ==> final(
                    state)@.subscriptions[k] == old(state)@.subscriptions[k]
        }),
        res is Err ==> final(state)@ == old(state)@,
        final(state)@.clients == old(state)@.clients,
{
    law_sub_subscribes_as_it_says(
        old(state)@,
        final(state)@,
        client_id@,
        sub,
        res,
    );
}

/// An UNSUB that is handled ends the subscription that it names, or sets its limit to the number
/// that it names, counted from the start of the subscription.
pub proof fn law_handled_unsubs_end_or_limit(
    state: &mut ServerState,
    client_id: &str,
    unsub: UnsubscribeCommand,
    res: Result<Effect, ClientError>,
)
    requires
        call_ensures(handle_command, (state, client_id, ClientCommand::Unsub(unsub)), res),
    ensures
        ({
            let key = KeyView { client_id: client_id@, sid: unsub.sid@ };
            let before = old(state)@.subscriptions[key];
            let entry = final(state)@.subscriptions[key];
            &&& res is Ok <==> old(state)@.subscriptions.contains_key(key)
            &&& res is Ok ==> res->Ok_0 is Nothing
            &&& final(state)@.subscriptions.contains_key(key) <==> old(
                state)@.subscriptions.contains_key(key) && unsub.max_msgs is Some
            &&& final(state)@.subscriptions.contains_key(key) ==> {
                &&& entry.max_msgs == unsub.max_msgs
                &&& entry.delivered == before.delivered
                &&& entry.subject == before.subject
                &&& entry.queue_group == before.queue_group
                &&& entry.sender == before.sender
            }
            &&& forall|k: KeyView|
                k != key ==> (#[trigger] final(state)@.subscriptions.contains_key(k) <==> old(
                    state)@.subscriptions.contains_key(k))
            &&& forall|k: KeyView|
                k != key && #[trigger] final(state)@.subscriptions.contains_key(k) ==> final(
                    state)@.subscriptions[k] == old(state)@.subscriptions[k]
        }),
        res is Err ==> final(state)@ == old(state)@,
        final(state)@.clients == old(state)@.clients,
{
    law_unsub_ends_or_limits_as_it_says(
        old(state)@,
        final(state)@,
        client_id@,
        unsub,
        res,
    );
}

/// A PUB that is handled is published as it is, with its subject, its subject for replies and its
/// payload, and every message for it carries these; one that is too large is refused. Handled by
/// itself it gives the same.
pub proof fn law_handled_pubs_are_published(
    state: &mut ServerState,
    client_id: &str,
    publish: PublishCommand,
    res: Result<Effect, ClientError>,
    t: TargetView,
)
    requires
        call_ensures(handle_command, (state, client_id, ClientCommand::Pub(publish)), res),
    ensures
        final(state)@ == old(state)@,
        res is Ok <==> publish.payload@.len() <= old(state)@.config.max_payload,
        res matches Ok(effect) ==> (effect matches Effect::Publish(p) && {
            &&& p@.subject == publish.subject@
            &&& publish.reply_to matches Some(reply) ==> p@.reply_to == Some(reply@)
            &&& publish.reply_to is None ==> p@.reply_to is None
            &&& p@.payload == publish.payload@
            &&& p@.message_for(t) == (MessageView::Msg {
                subject: publish.subject@,
                sid: t.key.sid,
                reply_to: match publish.reply_to {
                    Some(reply) => Some(reply@),
                    None => None,
                },
                payload: publish.payload@,
            })
        }),
{
    law_pub_publishes_what_it_says(
        old(state)@,
        final(state)@,
        client_id@,
        publish,
        res,
        t,
    );
}

/// What `handle_publish` publishes is the message of the command.
pub proof fn law_publish_commands_are_published(
    state: &ServerState,
    publish: PublishCommand,
    res: Result<Publication, ClientError>,
)
    requires
        call_ensures(handle_publish, (state, publish), res),
    ensures
        res is Ok <==> publish.payload@.len() <= state@.config.max_payload,
        res matches Ok(p) ==> {
            &&& p@.subject == publish.subject@
            &&& publish.reply_to matches Some(reply) ==> p@.reply_to == Some(reply@)
            &&& publish.reply_to is None ==> p@.reply_to is None
            &&& p@.payload == publish.payload@
        },
        res matches Err(error) ==> (error matches ClientError::Server(e) && (
        e matches ServerError::PayloadTooLarge { size, max } && size == publish.payload@.len()
            && max == state@.config.max_payload)),
{
}

/// A PING is answered with a PONG, a PONG with nothing, and a CONNECT with an acknowledgement
/// exactly if it asks for one; the server stays as it is.
pub proof fn law_handled_commands_are_answered(
    state: &mut ServerState,
    client_id: &str,
    command: ClientCommand,
    res: Result<Effect, ClientError>,
)
    requires
        call_ensures(handle_command, (state, client_id, command), res),
        command is Ping || command is Pong || command is Connect,
    ensures
        final(state)@ == old(state)@,
        res is Ok,
        command is Ping ==> (res->Ok_0 matches Effect::Reply(message) && message is Pong),
        command is Pong ==> res->Ok_0 is Nothing,
        command matches ClientCommand::Connect(connect) ==> if connect.verbose == Some(true) {
            res->Ok_0 matches Effect::Reply(message) && message is Okay
        } else {
            res->Ok_0 is Nothing
        },
{
}

/// The end of the input closes a connection; an error in it is told in its own words and ends the
/// connection with it; neither changes the server.
pub proof fn law_readings_end_connections(
    session: &Session,
    state: &mut ServerState,
    read: Result<Option<ClientCommand>, WireError>,
    reaction: Reaction,
)
    requires
        call_ensures(Session::on_read, (session, state, read), reaction),
    ensures
        read matches Ok(Some(command)) ==> exists|handled: Result<Effect, ClientError>|
            #[trigger]
            command_handled(old(state)@, final(state)@, session@, command@, handled) && reaction_to(
                handled,
                reaction,
            ),
        read matches Ok(None) ==> reaction is Close && final(state)@ == old(state)@,
        read matches Err(error) ==> final(state)@ == old(state)@ && (
        reaction matches Reaction::Refuse { reply, error: e } && {
            &&& e matches ClientError::Wire(w)
            &&& w@ == error@
            &&& reply matches ServerMessage::Error(words)
            &&& words@ == error@.message()
        }),
        read matches Ok(Some(_)) ==> !(reaction is Close),
        reaction matches Reaction::Refuse { reply, error } ==> (
        reply matches ServerMessage::Error(words) && words@ == error@.message()),
        read matches Ok(Some(ClientCommand::Ping)) ==> (reaction matches Reaction::Reply(message)
            && message is Pong && final(state)@ == old(state)@),
        read matches Ok(Some(ClientCommand::Pong)) ==> reaction is Continue && final(state)@ == old(
            state)@,
        read matches Ok(Some(ClientCommand::Pub(publish))) ==> final(state)@ == old(state)@ && (
        publish.payload@.len() <= old(state)@.config.max_payload ==> (
        reaction matches Reaction::Publish(p) && {
            &&& p@.subject == publish.subject@
            &&& publish.reply_to matches Some(reply) ==> p@.reply_to == Some(reply@)
            &&& publish.reply_to is None ==> p@.reply_to is None
            &&& p@.payload == publish.payload@
        })),
        read matches Ok(Some(ClientCommand::Sub(sub))) ==> (reaction is Continue <==> subject_error(
            sub.subject@,
        ) is None && old(state)@.clients.contains_key(session@)),
        read matches Ok(Some(ClientCommand::Sub(sub))) ==> ({
            let key = KeyView { client_id: session@, sid: sub.sid@ };
            let entry = final(state)@.subscriptions[key];
            reaction is Continue ==> {
                &&& final(state)@.subscriptions.contains_key(key)
                &&& entry.subject == sub.subject@
                &&& sub.queue_group matches Some(queue) ==> entry.queue_group == Some(queue@)
                &&& sub.queue_group is None ==> entry.queue_group is None
            }
        }),
        read matches Ok(Some(ClientCommand::Unsub(unsub))) ==> (reaction is Continue <==> old(
            state)@.subscriptions.contains_key(KeyView { client_id: session@, sid: unsub.sid@ })),
        read matches Ok(Some(_)) && reaction is Refuse ==> final(state)@ == old(state)@,
{
}

/// A connection registers its client under its identifier with its channel, announces the server
/// to it, and removes it when it is closed.
pub proof fn law_connections_register_their_client(
    state: &mut ServerState,
    sender: u64,
    client_id: String,
    opened: (Session, ServerMessage),
    session: Session,
    id: &str,
)
    ensures
        call_ensures(Session::open, (state, sender), opened) ==> {
            &&& opened.0@.len() == 25
            &&& forall|i: int| 0 <= i < 25 ==> is_id_digit(#[trigger] opened.0@[i])
            &&& final(state)@.clients.contains_key(opened.0@)
            &&& final(state)@.clients[opened.0@] == sender
            &&& final(state)@ == old(state)@.registered(opened.0@, sender)
            &&& final(state)@.subscriptions == old(state)@.subscriptions
            &&& opened.1 matches ServerMessage::Info(info)
            &&& announces(
                info,
                old(state)@.server_id,
                old(state)@.config.port,
                old(state)@.config.max_payload,
            )
        },
        call_ensures(Session::open_as, (state, client_id, sender), session) ==> {
            &&& session@ == client_id@
            &&& final(state)@ == old(state)@.registered(client_id@, sender)
            &&& final(state)@.clients.contains_key(client_id@)
            &&& final(state)@.clients[client_id@] == sender
            &&& final(state)@.subscriptions == old(state)@.subscriptions
        },
        call_ensures(Session::close, (session, state), ()) ==> {
            &&& final(state)@ == old(state)@.unregistered(session@)
            &&& !final(state)@.clients.contains_key(session@)
            &&& forall|k: KeyView| #[trigger]
                final(state)@.subscriptions.contains_key(k) <==> old(
                    state)@.subscriptions.contains_key(k) && k.client_id != session@
        },
        call_ensures(Session::client_id, (&session,), id) ==> id@ == session@,
{
}

/// A channel that does not take a message ends the connection, with the words for that; one that
/// does lets it go on.
pub proof fn law_closed_channels_end_connections(
    session: &Session,
    sent: bool,
    greeted: Result<(), ClientError>,
    reaction: Reaction,
    error: ClientError,
    refused: Reaction,
)
    ensures
        call_ensures(Session::on_greeting, (session, sent), greeted) ==> (greeted is Ok <==> sent)
            && (greeted matches Err(e) ==> e is ChannelClosed),
        call_ensures(Session::on_reply, (session, sent), reaction) ==> if sent {
            reaction is Continue
        } else {
            reaction matches Reaction::Refuse { reply, error: e } && e is ChannelClosed && (
            reply matches ServerMessage::Error(words) && words@ == "客户端写通道已关闭"@)
        },
        call_ensures(refuse, (error,), refused) ==> (refused matches Reaction::Refuse {
            reply,
            error: e,
        } && e@ == error@ && (reply matches ServerMessage::Error(words) && words@
            == error@.message())),
{
}

/// A closed connection ends as its writer ended.
pub proof fn law_connections_end_as_their_writer(
    ended: Result<Result<(), WireError>, String>,
    res: Result<(), ClientError>,
)
    requires
        call_ensures(writer_result, (ended,), res),
    ensures
        res is Ok <==> ended is Ok && ended->Ok_0 is Ok,
        ended matches Ok(Err(error)) ==> (res matches Err(ClientError::Wire(e)) && e@ == error@),
        ended matches Err(words) ==> (res matches Err(ClientError::Join(told)) && told@ == words@),
{
}

/// Reading goes by the meaning of the input, of commands, of lines and of what follows their first
/// words.
pub proof fn law_calls_go_by_the_meaning(
    input: &[u8],
    reading: (Result<Option<ClientCommand>, WireError>, usize),
    bytes: Vec<u8>,
    text: &str,
    line: Result<Line, WireError>,
    command: Result<ClientCommand, WireError>,
    header: Result<PublishHeader, WireError>,
)
    ensures
        call_ensures(read_command, (input,), reading) ==> {
            &&& read_outcome(reading.0) == command_reading(input@).outcome
            &&& reading.1 == command_reading(input@).taken
            &&& input@.len() == 0 ==> reading.0 matches Ok(None)
        },
        call_ensures(read_line, (bytes,), line) ==> viewed(line) == line_meaning(bytes@),
        call_ensures(parse_command, (text,), line) ==> viewed(line) == command_meaning(text@),
        call_ensures(parse_connect, (text,), command) ==> viewed(command) == connect_meaning(text@),
        call_ensures(parse_subscribe, (text,), command) ==> viewed(command) == subscribe_meaning(
            text@,
        ),
        call_ensures(parse_unsubscribe, (text,), command) ==> viewed(command)
            == unsubscribe_meaning(text@),
        call_ensures(parse_publish, (text,), header) ==> viewed(header) == publish_meaning(text@),
{
}

/// A command is handled as it is meant.
pub proof fn law_calls_handle_commands(
    state: &mut ServerState,
    client_id: &str,
    command: ClientCommand,
    res: Result<Effect, ClientError>,
)
    requires
        call_ensures(handle_command, (state, client_id, command), res),
    ensures
        command_handled(old(state)@, final(state)@, client_id@, command@, res),
{
}

/// Copies are like what they are copies of.
pub proof fn law_copied_values_are_alike(
    subject: &Subject,
    subject_copy: Subject,
    command: &ClientCommand,
    command_copy: ClientCommand,
    message: &ServerMessage,
    message_copy: ServerMessage,
    outbound: &OutboundMessage,
    outbound_copy: OutboundMessage,
    info: &InfoMessage,
    info_copy: InfoMessage,
    text: &Option<String>,
    text_copy: Option<String>,
    bytes: &Vec<u8>,
    bytes_copy: Vec<u8>,
    s: &str,
    chars: Vec<char>,
)
    ensures
        call_ensures(Subject::clone, (subject,), subject_copy) ==> subject_copy@ == subject@,
        call_ensures(ClientCommand::clone, (command,), command_copy) ==> command_copy@ == command@,
        call_ensures(ServerMessage::clone, (message,), message_copy) ==> message_copy@ == message@,
        call_ensures(OutboundMessage::clone, (outbound,), outbound_copy) ==> {
            &&& outbound_copy.subject@ == outbound.subject@
            &&& outbound_copy.sid@ == outbound.sid@
            &&& outbound_copy.reply_to is None <==> outbound.reply_to is None
            &&& outbound_copy.reply_to matches Some(a) ==> (outbound.reply_to matches Some(b) && a@
                == b@)
            &&& outbound_copy.payload@ == outbound.payload@
        },
        call_ensures(InfoMessage::clone, (info,), info_copy) ==> info_copy@ == info@,
        call_ensures(copy_optional, (text,), text_copy) ==> (text_copy is None <==> *text is None)
            && (text_copy matches Some(a) ==> (*text matches Some(b) && a@ == b@)),
        call_ensures(copy_bytes, (bytes,), bytes_copy) ==> bytes_copy@ == bytes@,
        call_ensures(chars_of, (s,), chars) ==> chars@ == s@,
{
}

/// Copies of the parts of commands are like them.
pub proof fn law_copied_commands_are_alike(
    connect: &ConnectCommand,
    connect_copy: ConnectCommand,
    sub: &SubscribeCommand,
    sub_copy: SubscribeCommand,
    unsub: &UnsubscribeCommand,
    unsub_copy: UnsubscribeCommand,
    publish: &PublishCommand,
    publish_copy: PublishCommand,
)
    ensures
        call_ensures(ConnectCommand::clone, (connect,), connect_copy) ==> connect_copy.options@
            == connect.options@ && connect_copy.verbose == connect.verbose,
        call_ensures(SubscribeCommand::clone, (sub,), sub_copy) ==> {
            &&& sub_copy.subject@ == sub.subject@
            &&& sub_copy.sid@ == sub.sid@
            &&& sub_copy.queue_group is None <==> sub.queue_group is None
            &&& sub_copy.queue_group matches Some(a) ==> (sub.queue_group matches Some(b) && a@
                == b@)
        },
        call_ensures(UnsubscribeCommand::clone, (unsub,), unsub_copy) ==> unsub_copy.sid@
            == unsub.sid@ && unsub_copy.max_msgs == unsub.max_msgs,
        call_ensures(PublishCommand::clone, (publish,), publish_copy) ==> {
            &&& publish_copy.subject@ == publish.subject@
            &&& publish_copy.reply_to is None <==> publish.reply_to is None
            &&& publish_copy.reply_to matches Some(a) ==> (publish.reply_to matches Some(b) && a@
                == b@)
            &&& publish_copy.payload@ == publish.payload@
        },
{
}

/// An error keeps its cause, and the fixed values are what they are.
pub proof fn law_errors_keep_their_cause(
    wire: WireError,
    server: ServerError,
    error: ClientError,
)
    ensures
        call_ensures(<ClientError as From<WireError>>::from, (wire,), error) ==> error
            == ClientError::Wire(wire),
        call_ensures(<ClientError as From<ServerError>>::from, (server,), error) ==> error
            == ClientError::Server(server),
        CHANNEL_SIZE == 128,
        VERSION@ == "0.1.0"@,
{
}

/// A table holds one value under a key: the last that was put there, until it is taken out.
pub proof fn law_tables_hold_the_last_value<K: TableKey, V: View>(
    table: &mut Table<K, V>,
    key: K,
    value: V,
    look: &Table<K, V>,
    at: &K,
    found: Option<&V>,
    taken: Option<V>,
    new: Table<K, V>,
)
    ensures
        call_ensures(Table::<K, V>::insert, (table, key, value), ()) ==> {
            &&& final(table)@.contains_key(key@)
            &&& final(table)@[key@] == value@
            &&& forall|k: K::V|
                k != key@ ==> (#[trigger] final(table)@.contains_key(k) <==> old(
                    table)@.contains_key(k))
            &&& forall|k: K::V|
                k != key@ && #[trigger] final(table)@.contains_key(k) ==> final(table)@[k] == old(
                    table)@[k]
        },
        call_ensures(Table::<K, V>::get, (look, at), found) ==> {
            &&& found is Some <==> look@.contains_key(at@)
            &&& found matches Some(v) ==> look@[at@] == v@
        },
        call_ensures(Table::<K, V>::remove, (table, at), taken) ==> {
            &&& taken is Some <==> old(table)@.contains_key(at@)
            &&& taken matches Some(v) ==> old(table)@[at@] == v@
            &&& forall|k: K::V| #[trigger]
                final(table)@.contains_key(k) <==> old(table)@.contains_key(k) && k != at@
            &&& forall|k: K::V| #[trigger]
                final(table)@.contains_key(k) ==> final(table)@[k] == old(table)@[k]
        },
        call_ensures(Table::<K, V>::new, (), new) ==> forall|k: K::V|
            !(#[trigger] new@.contains_key(k)),
{
}

} // verus!

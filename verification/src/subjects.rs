//! Subjects: dot-separated names, with `*` for one segment and `>` for the rest.
use vstd::prelude::*;
use vstd::slice::slice_subrange;

use crate::text::{
    contains_white, decimal, decimal_text, has_white, is_white, is_word, joined,
    law_join_splits_back, law_pieces_free_of_separator, law_pieces_of_two_texts,
    law_split_joins_back, law_trimmed_empty,
    lemma_pieces_nonempty, pieces, same_text, split_on, texts, trim, trimmed,
};

verus! {

/// Why a text is no subject.
#[derive(Debug)]
pub enum SubjectError {
    /// Nothing but white space.
    Empty,
    /// The segment at `index` is empty.
    EmptyToken { index: usize },
    /// A `>` stands before the last segment.
    TrailingWildcard,
    /// A segment holds white space.
    InvalidWhitespace { segment: String },
}

/// A `SubjectError` by its texts.
pub enum SubjectErrorView {
    Empty,
    EmptyToken { index: nat },
    TrailingWildcard,
    InvalidWhitespace { segment: Seq<char> },
}

impl View for SubjectError {
    type V = SubjectErrorView;

    open spec fn view(&self) -> SubjectErrorView {
        match self {
            SubjectError::Empty => SubjectErrorView::Empty,
            SubjectError::EmptyToken { index } => SubjectErrorView::EmptyToken {
                index: *index as nat,
            },
            SubjectError::TrailingWildcard => SubjectErrorView::TrailingWildcard,
            SubjectError::InvalidWhitespace { segment } => SubjectErrorView::InvalidWhitespace {
                segment: segment@,
            },
        }
    }
}

impl SubjectErrorView {
    /// The words in which the error is reported.
    pub open spec fn message(self) -> Seq<char> {
        match self {
            SubjectErrorView::Empty => "subject 不能为空"@,
            SubjectErrorView::EmptyToken { index } => "subject 不能包含连续的句点或空 segment，第 "@
                + decimal(index) + " 段无效"@,
            SubjectErrorView::TrailingWildcard => "'>' 通配符必须作为最后一段出现"@,
            SubjectErrorView::InvalidWhitespace { segment } => "subject 段包含非法空白字符: "@
                + segment,
        }
    }
}

impl SubjectError {
    /// The words in which the error is reported.
    pub fn message(&self) -> (res: String)
        ensures
            res@ == self@.message(),
    {
        match self {
            SubjectError::Empty => "subject 不能为空".to_owned(),
            SubjectError::EmptyToken { index } => {
                "subject 不能包含连续的句点或空 segment，第 ".to_owned().concat(
                    decimal_text(*index as u64).as_str(),
                ).concat(" 段无效")
            },
            SubjectError::TrailingWildcard => "'>' 通配符必须作为最后一段出现".to_owned(),
            SubjectError::InvalidWhitespace { segment } => {
                "subject 段包含非法空白字符: ".to_owned().concat(segment.as_str())
            },
        }
    }
}

/// What is wrong with the segment at `i`.
pub open spec fn segment_error(segments: Seq<Seq<char>>, i: int) -> Option<SubjectErrorView> {
    let segment = segments[i];
    if segment.len() == 0 {
        Some(SubjectErrorView::EmptyToken { index: i as nat })
    } else if has_white(segment) {
        Some(SubjectErrorView::InvalidWhitespace { segment })
    } else if segment == seq!['>'] && i + 1 < segments.len() {
        Some(SubjectErrorView::TrailingWildcard)
    } else {
        None
    }
}

/// What is wrong with the first faulty segment at or after `from`.
pub open spec fn first_error(segments: Seq<Seq<char>>, from: int) -> Option<SubjectErrorView>
    decreases segments.len() - from,
{
    if from >= segments.len() {
        None
    } else if segment_error(segments, from) is Some {
        segment_error(segments, from)
    } else {
        first_error(segments, from + 1)
    }
}

/// Why `s` is no subject; `None` if it is one.
pub open spec fn subject_error(s: Seq<char>) -> Option<SubjectErrorView> {
    if trimmed(s).len() == 0 {
        Some(SubjectErrorView::Empty)
    } else {
        first_error(pieces(s, '.'), 0)
    }
}

/// A segment of a pattern stands for a segment of a name.
pub open spec fn segment_matches(pattern: Seq<char>, name: Seq<char>) -> bool {
    pattern == seq!['*'] || pattern == name
}

/// The subject `pattern` covers the name `target`: segment by segment, and whatever comes where
/// the pattern ends in `>`.
pub open spec fn subject_matches(pattern: Seq<char>, target: Seq<char>) -> bool {
    let p = pieces(pattern, '.');
    let t = pieces(target, '.');
    if p.last() == seq!['>'] {
        &&& p.len() - 1 <= t.len()
        &&& forall|i: int| 0 <= i < p.len() - 1 ==> segment_matches(#[trigger] p[i], t[i])
    } else {
        &&& p.len() == t.len()
        &&& forall|i: int| 0 <= i < p.len() ==> segment_matches(#[trigger] p[i], t[i])
    }
}

/// A parsed subject.
#[derive(Debug, PartialEq, Eq, Hash)]
pub struct Subject {
    raw: String,
    atoms: Vec<Atom>,
}

/// What a segment of a pattern stands for.
#[derive(Debug, PartialEq, Eq, Hash)]
pub enum Atom {
    /// A segment of the same text.
    Literal(String),
    /// Any one segment.
    One,
    /// Any number of segments.
    Tail,
}

/// `atom` is what the segment `segment` stands for.
spec fn atom_of(atom: Atom, segment: Seq<char>) -> bool {
    match atom {
        Atom::One => segment == seq!['*'],
        Atom::Tail => segment == seq!['>'],
        Atom::Literal(s) => s@ == segment && segment != seq!['*'] && segment != seq!['>'],
    }
}

spec fn atoms_of(atoms: Seq<Atom>, segments: Seq<Seq<char>>) -> bool {
    &&& atoms.len() == segments.len()
    &&& forall|i: int| 0 <= i < atoms.len() ==> atom_of(#[trigger] atoms[i], segments[i])
}

/// The tokens are covered by the atoms: one each, and any number by a `Tail`.
pub open spec fn atoms_match(pattern: Seq<Atom>, tokens: Seq<Seq<char>>) -> bool
    decreases pattern.len(),
{
    if pattern.len() == 0 {
        tokens.len() == 0
    } else {
        match pattern[0] {
            Atom::Tail => true,
            Atom::One => tokens.len() > 0 && atoms_match(pattern.drop_first(), tokens.drop_first()),
            Atom::Literal(s) => tokens.len() > 0 && s@ == tokens[0] && atoms_match(
                pattern.drop_first(),
                tokens.drop_first(),
            ),
        }
    }
}

impl View for Subject {
    type V = Seq<char>;

    closed spec fn view(&self) -> Seq<char> {
        self.raw@
    }
}

impl Clone for Subject {
    fn clone(&self) -> (res: Self)
        ensures
            res@ == self@,
    {
        proof {
            use_type_invariant(self);
        }
        let ghost segments = pieces(self.raw@, '.');
        let mut atoms: Vec<Atom> = Vec::new();
        let mut i: usize = 0;
        while i < self.atoms.len()
            invariant
                i <= self.atoms.len(),
                atoms.len() == i,
                atoms_of(self.atoms@, segments),
                forall|j: int| 0 <= j < i ==> atom_of(#[trigger] atoms@[j], segments[j]),
            decreases self.atoms.len() - i,
        {
            proof {
                assert(atom_of(self.atoms@[i as int], segments[i as int]));
            }
            let atom = match &self.atoms[i] {
                Atom::Literal(s) => Atom::Literal(s.clone()),
                Atom::One => Atom::One,
                Atom::Tail => Atom::Tail,
            };
            atoms.push(atom);
            i += 1;
        }
        Subject { raw: self.raw.clone(), atoms }
    }
}

impl Subject {
    #[verifier::type_invariant]
    spec fn parsed(self) -> bool {
        &&& subject_error(self.raw@) is None
        &&& atoms_of(self.atoms@, pieces(self.raw@, '.'))
    }

    /// Reads a subject.
    pub fn parse(input: &str) -> (res: Result<Self, SubjectError>)
        ensures
            match res {
                Ok(subject) => subject_error(input@) is None && subject@ == input@,
                Err(error) => subject_error(input@) == Some(error@),
            },
    {
        if trim(input).is_empty() {
            return Err(SubjectError::Empty);
        }
        let segments = split_on(input, '.');
        let ghost parts = pieces(input@, '.');
        let mut atoms: Vec<Atom> = Vec::new();
        let mut index: usize = 0;
        while index < segments.len()
            invariant
                trimmed(input@).len() > 0,
                parts == pieces(input@, '.'),
                texts(segments@) == parts,
                index <= segments.len(),
                atoms.len() == index,
                first_error(parts, 0) == first_error(parts, index as int),
                forall|j: int| 0 <= j < index ==> atom_of(#[trigger] atoms@[j], parts[j]),
            decreases segments.len() - index,
        {
            let segment = segments[index];
            proof {
                reveal_strlit("*");
                reveal_strlit(">");
                assert("*"@ =~= seq!['*']);
                assert(">"@ =~= seq!['>']);
                assert(segment@ == parts[index as int]);
                assert(seq!['*'][0] != seq!['>'][0]);
            }
            if segment.is_empty() {
                return Err(SubjectError::EmptyToken { index });
            }
            if contains_white(segment) {
                return Err(SubjectError::InvalidWhitespace { segment: segment.to_owned() });
            }
            if same_text(segment, "*") {
                atoms.push(Atom::One);
            } else if same_text(segment, ">") {
                if index + 1 < segments.len() {
                    return Err(SubjectError::TrailingWildcard);
                }
                atoms.push(Atom::Tail);
            } else {
                atoms.push(Atom::Literal(segment.to_owned()));
            }
            index += 1;
        }
        Ok(Subject { raw: input.to_owned(), atoms })
    }

    /// The text that the subject was read from.
    pub fn raw(&self) -> (res: &str)
        ensures
            res@ == self@,
    {
        self.raw.as_str()
    }

    /// Whether the subject covers the name `target`.
    pub fn matches(&self, target: &str) -> (res: bool)
        ensures
            res == subject_matches(self@, target@),
    {
        let target_tokens = split_on(target, '.');
        proof {
            use_type_invariant(self);
            lemma_pieces_nonempty(self.raw@, '.');
            lemma_no_early_tail(pieces(self.raw@, '.'), 0);
            lemma_atoms_match(self.atoms@, pieces(self.raw@, '.'), texts(target_tokens@));
        }
        matches_tokens(self.atoms.as_slice(), target_tokens.as_slice())
    }
}

/// Whether the atoms cover the tokens.
pub fn matches_tokens(pattern: &[Atom], tokens: &[&str]) -> (res: bool)
    ensures
        res == atoms_match(pattern@, texts(tokens@)),
    decreases pattern@.len(),
{
    if pattern.len() == 0 {
        return tokens.len() == 0;
    }
    if tokens.len() > 0 {
        proof {
            assert(texts(tokens@).drop_first() =~= texts(tokens@.subrange(1, tokens@.len() as int)));
            assert(pattern@.drop_first() =~= pattern@.subrange(1, pattern@.len() as int));
        }
    }
    match &pattern[0] {
        Atom::Tail => true,
        Atom::One => {
            if tokens.len() == 0 {
                return false;
            }
            matches_tokens(
                slice_subrange(pattern, 1, pattern.len()),
                slice_subrange(tokens, 1, tokens.len()),
            )
        },
        Atom::Literal(expected) => {
            if tokens.len() > 0 && same_text(tokens[0], expected.as_str()) {
                return matches_tokens(
                    slice_subrange(pattern, 1, pattern.len()),
                    slice_subrange(tokens, 1, tokens.len()),
                );
            }
            false
        },
    }
}

/// Without a fault at or after `from`, a `>` there can only be the last segment.
proof fn lemma_no_early_tail(segments: Seq<Seq<char>>, from: int)
    requires
        0 <= from,
        first_error(segments, from) is None,
    ensures
        forall|i: int|
            from <= i < segments.len() - 1 ==> #[trigger] segments[i] != seq!['>'],
        forall|i: int|
            from <= i < segments.len() ==> (#[trigger] segments[i]).len() > 0 && !has_white(segments[i]),
    decreases segments.len() - from,
{
    if from < segments.len() {
        lemma_no_early_tail(segments, from + 1);
        assert(segment_error(segments, from) is None);
    }
}

/// The first `n` segments match one by one.
spec fn front_matches(p: Seq<Seq<char>>, t: Seq<Seq<char>>, n: int) -> bool {
    &&& n <= t.len()
    &&& forall|i: int| 0 <= i < n ==> segment_matches(#[trigger] p[i], t[i])
}

proof fn lemma_front_matches(p: Seq<Seq<char>>, t: Seq<Seq<char>>, n: int)
    requires
        0 < n <= p.len(),
        t.len() > 0,
    ensures
        front_matches(p, t, n) == (segment_matches(p[0], t[0]) && front_matches(
            p.drop_first(),
            t.drop_first(),
            n - 1,
        )),
{
    let p1 = p.drop_first();
    let t1 = t.drop_first();
    if front_matches(p, t, n) {
        assert(segment_matches(p[0], t[0]));
        assert forall|i: int| 0 <= i < n - 1 implies segment_matches(#[trigger] p1[i], t1[i]) by {
            assert(segment_matches(p[i + 1], t[i + 1]));
        }
    }
    if segment_matches(p[0], t[0]) && front_matches(p1, t1, n - 1) {
        assert forall|i: int| 0 <= i < n implies segment_matches(#[trigger] p[i], t[i]) by {
            if i > 0 {
                assert(segment_matches(p1[i - 1], t1[i - 1]));
            }
        }
    }
}

/// For the segments of a subject, the recursive reading of the atoms is the plain one.
proof fn lemma_atoms_match(atoms: Seq<Atom>, p: Seq<Seq<char>>, t: Seq<Seq<char>>)
    requires
        atoms_of(atoms, p),
        p.len() > 0,
        forall|i: int| 0 <= i < p.len() - 1 ==> #[trigger] p[i] != seq!['>'],
    ensures
        atoms_match(atoms, t) == if p.last() == seq!['>'] {
            front_matches(p, t, p.len() - 1)
        } else {
            p.len() == t.len() && front_matches(p, t, p.len() as int)
        },
    decreases p.len(),
{
    assert(atom_of(atoms[0], p[0]));
    assert(seq!['*'][0] != seq!['>'][0]);
    if p.len() == 1 {
        if t.len() > 0 {
            assert(atoms_match(atoms.drop_first(), t.drop_first()) == (t.len() == 1));
            if p.last() != seq!['>'] {
                lemma_front_matches(p, t, 1);
            }
        }
    } else {
        assert(p[0] != seq!['>']);
        let p1 = p.drop_first();
        let a1 = atoms.drop_first();
        assert forall|i: int| 0 <= i < a1.len() implies atom_of(#[trigger] a1[i], p1[i]) by {
            assert(atom_of(atoms[i + 1], p[i + 1]));
        }
        assert forall|i: int| 0 <= i < p1.len() - 1 implies #[trigger] p1[i] != seq!['>'] by {
            assert(p[i + 1] != seq!['>']);
        }
        if t.len() > 0 {
            lemma_atoms_match(a1, p1, t.drop_first());
            lemma_front_matches(p, t, p.len() - 1);
            lemma_front_matches(p, t, p.len() as int);
        }
    }
}

/// A text is a subject exactly if each of its segments is a word and only the last one may be
/// `>`.
pub proof fn law_valid_subjects(s: Seq<char>)
    ensures
        subject_error(s) is None <==> forall|i: int|
            0 <= i < pieces(s, '.').len() ==> is_word(#[trigger] pieces(s, '.')[i]) && (pieces(
                s,
                '.',
            )[i] == seq!['>'] ==> i == pieces(s, '.').len() - 1),
{
    let p = pieces(s, '.');
    lemma_pieces_nonempty(s, '.');
    law_trimmed_empty(s);
    law_split_joins_back(s, '.');
    if subject_error(s) is None {
        lemma_no_early_tail(p, 0);
    }
    if forall|i: int|
        0 <= i < p.len() ==> is_word(#[trigger] p[i]) && (p[i] == seq!['>'] ==> i == p.len() - 1) {
        lemma_faultless(p, 0);
        assert(is_word(p[p.len() - 1]));
        let last = p.last();
        if p.len() == 1 {
            assert(joined(p, '.') == last);
        } else {
            assert(joined(p, '.') == joined(p.drop_last(), '.').push('.') + last);
        }
        assert(!is_white(last[last.len() - 1]));
        assert(s[s.len() - 1] == last[last.len() - 1]);
    }
}

proof fn lemma_faultless(segments: Seq<Seq<char>>, from: int)
    requires
        0 <= from,
        forall|i: int|
            0 <= i < segments.len() ==> is_word(#[trigger] segments[i]) && (segments[i] == seq!['>']
                ==> i == segments.len() - 1),
    ensures
        first_error(segments, from) is None,
    decreases segments.len() - from,
{
    if from < segments.len() {
        assert(is_word(segments[from]));
        lemma_faultless(segments, from + 1);
    }
}

/// A pattern matches part by part: atoms without a `Tail` cover as many tokens, and what follows
/// them the tokens that follow.
pub proof fn law_patterns_match_part_by_part(
    p1: Seq<Atom>,
    p2: Seq<Atom>,
    t1: Seq<Seq<char>>,
    t2: Seq<Seq<char>>,
)
    requires
        forall|i: int| 0 <= i < p1.len() ==> !((#[trigger] p1[i]) is Tail),
        p1.len() == t1.len(),
    ensures
        atoms_match(p1 + p2, t1 + t2) == (atoms_match(p1, t1) && atoms_match(p2, t2)),
    decreases p1.len(),
{
    if p1.len() == 0 {
        assert(p1 + p2 =~= p2);
        assert(t1 + t2 =~= t2);
    } else {
        assert(!(p1[0] is Tail));
        assert((p1 + p2).drop_first() =~= p1.drop_first() + p2);
        assert((t1 + t2).drop_first() =~= t1.drop_first() + t2);
        law_patterns_match_part_by_part(p1.drop_first(), p2, t1.drop_first(), t2);
    }
}

/// A subject covers part by part: where what stands before one of its dots has no `>`, that part
/// covers as many segments, and the rest of the subject the segments that follow.
pub proof fn law_subjects_match_part_by_part(
    front: Seq<char>,
    back: Seq<char>,
    t1: Seq<char>,
    t2: Seq<char>,
)
    requires
        forall|i: int|
            0 <= i < pieces(front, '.').len() ==> #[trigger] pieces(front, '.')[i] != seq!['>'],
        pieces(front, '.').len() == pieces(t1, '.').len(),
    ensures
        subject_matches(front.push('.') + back, t1.push('.') + t2) <==> subject_matches(front, t1)
            && subject_matches(back, t2),
{
    let pf = pieces(front, '.');
    let pb = pieces(back, '.');
    let tf = pieces(t1, '.');
    let tb = pieces(t2, '.');
    let p = pieces(front.push('.') + back, '.');
    let t = pieces(t1.push('.') + t2, '.');
    let n = pf.len() as int;
    law_pieces_of_two_texts(front, back, '.');
    law_pieces_of_two_texts(t1, t2, '.');
    lemma_pieces_nonempty(front, '.');
    lemma_pieces_nonempty(back, '.');
    assert(pf[n - 1] != seq!['>']);
    assert(p.last() == pb.last());
    if subject_matches(front.push('.') + back, t1.push('.') + t2) {
        assert forall|i: int| 0 <= i < n implies segment_matches(#[trigger] pf[i], tf[i]) by {
            assert(segment_matches(p[i], t[i]));
        }
        assert forall|i: int|
            0 <= i < pb.len() && n + i < p.len() - (if pb.last() == seq!['>'] {
                1int
            } else {
                0int
            }) implies segment_matches(#[trigger] pb[i], tb[i]) by {
            assert(segment_matches(p[n + i], t[n + i]));
        }
    }
    if subject_matches(front, t1) && subject_matches(back, t2) {
        assert forall|i: int|
            0 <= i < p.len() - (if pb.last() == seq!['>'] {
                1int
            } else {
                0int
            }) implies segment_matches(#[trigger] p[i], t[i]) by {
            if i < n {
                assert(segment_matches(pf[i], tf[i]));
            } else {
                assert(segment_matches(pb[i - n], tb[i - n]));
            }
        }
    }
}

/// A text covers itself.
pub proof fn law_subject_covers_itself(s: Seq<char>)
    ensures
        subject_matches(s, s),
{
}

/// A subject without wildcards covers one name, its own.
pub proof fn law_literal_subject_covers_only_itself(s: Seq<char>, target: Seq<char>)
    requires
        forall|i: int|
            0 <= i < pieces(s, '.').len() ==> #[trigger] pieces(s, '.')[i] != seq!['*'] && pieces(
                s,
                '.',
            )[i] != seq!['>'],
    ensures
        subject_matches(s, target) <==> s == target,
{
    let p = pieces(s, '.');
    let t = pieces(target, '.');
    lemma_pieces_nonempty(s, '.');
    assert(p[p.len() - 1] != seq!['>']);
    if subject_matches(s, target) {
        assert forall|i: int| 0 <= i < p.len() implies p[i] == t[i] by {
            assert(segment_matches(p[i], t[i]));
        }
        assert(p =~= t);
        law_split_joins_back(s, '.');
        law_split_joins_back(target, '.');
    }
}

/// The subject `>` covers every name.
pub proof fn law_tail_covers_everything(target: Seq<char>)
    ensures
        subject_matches(seq!['>'], target),
{
    lemma_single_piece('>');
}

/// The subject `*` covers the names of one segment.
pub proof fn law_star_covers_one_segment(target: Seq<char>)
    ensures
        subject_matches(seq!['*'], target) <==> pieces(target, '.').len() == 1,
{
    lemma_single_piece('*');
    let p = pieces(seq!['*'], '.');
    assert(seq!['*'][0] != seq!['>'][0]);
    assert(p[0] == seq!['*']);
}

proof fn lemma_single_piece(c: char)
    requires
        c != '.',
    ensures
        pieces(seq![c], '.') == seq![seq![c]],
{
    let s = seq![c];
    assert(s.drop_last() =~= Seq::<char>::empty());
    assert(pieces(s.drop_last(), '.') == seq![Seq::<char>::empty()]);
    assert(Seq::<char>::empty().push(c) =~= s);
    assert(pieces(s, '.') =~= seq![s]);
}

/// A subject that ends in `>` covers the names of which as many first segments as it has others
/// are covered by what stands before the `>`.
pub proof fn law_tail_covers_extensions(front: Seq<char>, target: Seq<char>)
    requires
        pieces(front, '.').last() != seq!['>'],
    ensures
        subject_matches(front + seq!['.', '>'], target) <==> {
            let n = pieces(front, '.').len() as int;
            &&& n <= pieces(target, '.').len()
            &&& subject_matches(front, joined(pieces(target, '.').take(n), '.'))
        },
{
    let p = pieces(front, '.');
    let t = pieces(target, '.');
    let n = p.len() as int;
    lemma_pieces_nonempty(front, '.');
    lemma_tail_pieces(front);
    let whole = pieces(front + seq!['.', '>'], '.');
    if n <= t.len() {
        let part = t.take(n);
        law_pieces_free_of_separator(target, '.');
        assert forall|i: int| 0 <= i < part.len() implies !(#[trigger] part[i]).contains('.') by {
            assert(part[i] == t[i]);
        }
        law_join_splits_back(part, '.');
        if subject_matches(front, joined(part, '.')) {
            assert forall|i: int| 0 <= i < n implies segment_matches(#[trigger] whole[i], t[i]) by {
                assert(segment_matches(p[i], part[i]));
            }
        }
        if subject_matches(front + seq!['.', '>'], target) {
            assert forall|i: int| 0 <= i < n implies segment_matches(#[trigger] p[i], part[i]) by {
                assert(segment_matches(whole[i], t[i]));
            }
        }
    }
}

proof fn lemma_tail_pieces(front: Seq<char>)
    ensures
        pieces(front + seq!['.', '>'], '.') == pieces(front, '.').push(seq!['>']),
{
    let whole = front + seq!['.', '>'];
    let dotted = front.push('.');
    let p = pieces(front, '.');
    assert(whole.drop_last() =~= dotted);
    assert(dotted.drop_last() =~= front);
    assert(pieces(dotted, '.') == p.push(Seq::<char>::empty()));
    assert(p.push(Seq::<char>::empty()).drop_last() =~= p);
    assert(Seq::<char>::empty().push('>') =~= seq!['>']);
}

/// A subject that does not end in `>` covers only names of as many segments as it has.
pub proof fn law_subjects_cover_names_of_their_length(p: Seq<char>, t: Seq<char>)
    requires
        subject_matches(p, t),
        pieces(p, '.').last() != seq!['>'],
    ensures
        pieces(t, '.').len() == pieces(p, '.').len(),
{
}

/// A subject that ends in `>` covers only names of at least as many segments as stand before the
/// `>`.
pub proof fn law_tails_cover_no_shorter_names(p: Seq<char>, t: Seq<char>)
    requires
        subject_matches(p, t),
    ensures
        pieces(t, '.').len() >= pieces(p, '.').len() - 1,
{
}

/// What a subject covers agrees with it, segment by segment, but for the wildcards.
pub proof fn law_covered_names_agree_with_the_subject(p: Seq<char>, t: Seq<char>, i: int)
    requires
        subject_matches(p, t),
        0 <= i < pieces(p, '.').len(),
        pieces(p, '.')[i] != seq!['*'],
        i < pieces(p, '.').len() - 1 || pieces(p, '.')[i] != seq!['>'],
    ensures
        i < pieces(t, '.').len(),
        pieces(t, '.')[i] == pieces(p, '.')[i],
{
    assert(segment_matches(pieces(p, '.')[i], pieces(t, '.')[i]));
}

/// A name that agrees with a subject, segment by segment, but for the wildcards, is covered by it:
/// one of as many segments, or of any number from the last on where that is a `>`.
pub proof fn law_names_that_agree_are_covered(p: Seq<char>, t: Seq<char>)
    requires
        if pieces(p, '.').last() == seq!['>'] {
            pieces(t, '.').len() >= pieces(p, '.').len() - 1
        } else {
            pieces(t, '.').len() == pieces(p, '.').len()
        },
        forall|i: int|
            0 <= i < pieces(p, '.').len() && (i < pieces(p, '.').len() - 1 || pieces(p, '.')[i]
                != seq!['>']) ==> #[trigger] pieces(p, '.')[i] == seq!['*'] || pieces(p, '.')[i]
                == pieces(t, '.')[i],
    ensures
        subject_matches(p, t),
{
    let pp = pieces(p, '.');
    let n: int = if pp.last() == seq!['>'] {
        pp.len() - 1
    } else {
        pp.len() as int
    };
    lemma_pieces_nonempty(p, '.');
    assert forall|i: int| 0 <= i < n implies segment_matches(
        #[trigger] pp[i],
        pieces(t, '.')[i],
    ) by {
        assert(pp[i] == seq!['*'] || pp[i] == pieces(t, '.')[i]);
    }
}

/// Where a subject has a `*`, any other segment is covered as well.
pub proof fn law_star_stands_for_any_segment(p: Seq<char>, t: Seq<char>, i: int, x: Seq<char>)
    requires
        subject_matches(p, t),
        0 <= i < pieces(p, '.').len(),
        i < pieces(t, '.').len(),
        pieces(p, '.')[i] == seq!['*'],
        !x.contains('.'),
    ensures
        subject_matches(p, joined(pieces(t, '.').update(i, x), '.')),
{
    let pp = pieces(p, '.');
    let tt = pieces(t, '.');
    let changed = tt.update(i, x);
    law_pieces_free_of_separator(t, '.');
    assert forall|j: int| 0 <= j < changed.len() implies !(#[trigger] changed[j]).contains('.') by {
        if j != i {
            assert(changed[j] == tt[j]);
        }
    }
    law_join_splits_back(changed, '.');
    assert forall|j: int|
        0 <= j < pp.len() && j < tt.len() && segment_matches(pp[j], tt[j]) implies segment_matches(
        #[trigger] pp[j],
        changed[j],
    ) by {}
}

/// A pattern without a `Tail` covers as many tokens as it has atoms, each literal its own text and
/// each `One` any.
pub proof fn law_patterns_match_atom_by_atom(p: Seq<Atom>, t: Seq<Seq<char>>)
    requires
        forall|i: int| 0 <= i < p.len() ==> !((#[trigger] p[i]) is Tail),
    ensures
        atoms_match(p, t) <==> p.len() == t.len() && forall|i: int|
            0 <= i < p.len() ==> ((#[trigger] p[i]) matches Atom::Literal(s) ==> s@ == t[i]),
    decreases p.len(),
{
    if p.len() > 0 {
        assert(!(p[0] is Tail));
        let p1 = p.drop_first();
        assert forall|i: int| 0 <= i < p1.len() implies !((#[trigger] p1[i]) is Tail) by {
            assert(!(p[i + 1] is Tail));
        }
        if t.len() > 0 {
            let t1 = t.drop_first();
            law_patterns_match_atom_by_atom(p1, t1);
            if p.len() == t.len() && forall|i: int|
                0 <= i < p.len() ==> ((#[trigger] p[i]) matches Atom::Literal(s) ==> s@ == t[i]) {
                assert forall|i: int| 0 <= i < p1.len() implies ((
                #[trigger] p1[i]) matches Atom::Literal(s) ==> s@ == t1[i]) by {
                    assert(p1[i] == p[i + 1]);
                }
                assert(p[0] matches Atom::Literal(s) ==> s@ == t[0]);
            }
            if atoms_match(p, t) {
                assert forall|i: int| 0 <= i < p.len() implies ((
                #[trigger] p[i]) matches Atom::Literal(s) ==> s@ == t[i]) by {
                    if i > 0 {
                        assert(p1[i - 1] == p[i]);
                    }
                }
            }
        }
    }
}

/// From a `Tail` on any tokens are covered, or none: only those before it count.
pub proof fn law_tails_match_any_tokens(front: Seq<Atom>, back: Seq<Atom>, t: Seq<Seq<char>>)
    requires
        forall|i: int| 0 <= i < front.len() ==> !((#[trigger] front[i]) is Tail),
    ensures
        atoms_match(front.push(Atom::Tail) + back, t) <==> front.len() <= t.len() && atoms_match(
            front,
            t.take(front.len() as int),
        ),
    decreases front.len(),
{
    let whole = front.push(Atom::Tail) + back;
    if front.len() == 0 {
        assert(whole[0] is Tail);
    } else {
        assert(whole[0] == front[0]);
        assert(!(front[0] is Tail));
        let f1 = front.drop_first();
        assert forall|i: int| 0 <= i < f1.len() implies !((#[trigger] f1[i]) is Tail) by {
            assert(!(front[i + 1] is Tail));
        }
        assert(whole.drop_first() =~= f1.push(Atom::Tail) + back);
        if t.len() > 0 {
            law_tails_match_any_tokens(f1, back, t.drop_first());
            if front.len() <= t.len() {
                assert(t.take(front.len() as int).drop_first() =~= t.drop_first().take(
                    f1.len() as int,
                ));
            }
        }
    }
}

/// An error tells of the first faulty segment, and of what is wrong with it.
pub proof fn law_subject_errors_tell_of_the_first_fault(s: Seq<char>) -> (i: int)
    requires
        subject_error(s) is Some,
        !(subject_error(s)->0 is Empty),
    ensures
        0 <= i < pieces(s, '.').len(),
        forall|j: int|
            0 <= j < i ==> is_word(#[trigger] pieces(s, '.')[j]) && pieces(s, '.')[j] != seq!['>'],
        match subject_error(s)->0 {
            SubjectErrorView::Empty => false,
            SubjectErrorView::EmptyToken { index } => index == i && pieces(s, '.')[i].len() == 0,
            SubjectErrorView::InvalidWhitespace { segment } => segment == pieces(s, '.')[i]
                && has_white(segment),
            SubjectErrorView::TrailingWildcard => pieces(s, '.')[i] == seq!['>'] && i < pieces(
                s,
                '.',
            ).len() - 1,
        },
{
    lemma_first_fault(pieces(s, '.'), 0)
}

proof fn lemma_first_fault(segments: Seq<Seq<char>>, from: int) -> (i: int)
    requires
        0 <= from,
        first_error(segments, from) is Some,
    ensures
        from <= i < segments.len(),
        segment_error(segments, i) == first_error(segments, from),
        forall|j: int|
            from <= j < i ==> is_word(#[trigger] segments[j]) && segments[j] != seq!['>'],
    decreases segments.len() - from,
{
    if segment_error(segments, from) is Some {
        from
    } else {
        let i = lemma_first_fault(segments, from + 1);
        assert forall|j: int| from <= j < i implies is_word(#[trigger] segments[j]) && segments[j]
            != seq!['>'] by {
            if j == from {
                assert(segment_error(segments, from) is None);
            }
        }
        i
    }
}

/// A text is refused as empty exactly if there is nothing in it but white space.
pub proof fn law_blank_subjects_are_empty(s: Seq<char>)
    ensures
        subject_error(s) == Some(SubjectErrorView::Empty) <==> forall|i: int|
            0 <= i < s.len() ==> is_white(#[trigger] s[i]),
{
    law_trimmed_empty(s);
    if trimmed(s).len() > 0 && subject_error(s) is Some {
        let i = lemma_first_fault(pieces(s, '.'), 0);
    }
}

/// The words of an error name what is at fault: the index, or the segment as it stands.
pub proof fn law_subject_error_words(index: nat, segment: Seq<char>)
    ensures
        (SubjectErrorView::EmptyToken { index }).message()
            == "subject 不能包含连续的句点或空 segment，第 "@ + decimal(index) + " 段无效"@,
        (SubjectErrorView::InvalidWhitespace { segment }).message()
            == "subject 段包含非法空白字符: "@ + segment,
        SubjectErrorView::Empty.message() == "subject 不能为空"@,
        SubjectErrorView::TrailingWildcard.message() == "'>' 通配符必须作为最后一段出现"@,
{
}

/// The view of an error shows what it holds.
pub proof fn law_subject_errors_show_what_they_hold(error: SubjectError)
    ensures
        match error {
            SubjectError::Empty => error@ is Empty,
            SubjectError::EmptyToken { index } => error@ == (SubjectErrorView::EmptyToken {
                index: index as nat,
            }),
            SubjectError::TrailingWildcard => error@ is TrailingWildcard,
            SubjectError::InvalidWhitespace { segment } => error@
                == (SubjectErrorView::InvalidWhitespace { segment: segment@ }),
        },
{
}

} // verus!

//! Cutting a page into segments along a hierarchy of separators.

use crate::chunk_merger::token_count;
use crate::patterns::{regex_compile, regex_compiles, regex_find_all, regex_matches, regex_source};
use crate::splitting::{cut_pieces, gaps, literal_matches, literal_spans, piece_ok, pieces_ordered};
use crate::text::{blank, is_blank, slice_text};
use crate::tiktoken_core::CoreBPE;
use regex::Regex;
use vstd::prelude::*;
use vstd::string::StringSliceAdditionalSpecFns;
use vstd::utf8::{decode_utf8, encode_utf8, encode_utf8_decode_utf8};

verus! {

/// A slice of the page text, with the byte offsets at which it lies in the
/// page and the level of the separator that cut it out.
#[derive(Debug, Clone)]
pub struct Segment {
    pub text: String,
    pub start_offset: usize,
    pub end_offset: usize,
    pub semantic_level: usize,
}

/// A segment as plain values.
pub struct SegmentView {
    pub text: Seq<char>,
    pub start_offset: usize,
    pub end_offset: usize,
    pub semantic_level: usize,
}

impl View for Segment {
    type V = SegmentView;

    open spec fn view(&self) -> SegmentView {
        SegmentView {
            text: self.text@,
            start_offset: self.start_offset,
            end_offset: self.end_offset,
            semantic_level: self.semantic_level,
        }
    }
}

/// A list of segments as plain values.
pub open spec fn segment_views(segments: Seq<Segment>) -> Seq<SegmentView> {
    segments.map_values(|s: Segment| s@)
}

/// How a separator is matched: as a pattern, or letter for letter.
enum SeparatorType {
    Regex(Regex),
    Literal(String),
}

/// One separator of the hierarchy, with the level of its strength.
struct SeparatorPattern {
    pattern: SeparatorType,
    level: usize,
}

/// A separator as plain values: whether it is a pattern, its text, and its
/// level.
pub struct SeparatorRule {
    pub regex: bool,
    pub pattern: Seq<char>,
    pub level: usize,
}

/// The list with one more rule; a pattern that does not compile is left out.
pub open spec fn with_rule(rules: Seq<SeparatorRule>, rule: SeparatorRule) -> Seq<SeparatorRule> {
    if !rule.regex || regex_compiles(rule.pattern) {
        rules.push(rule)
    } else {
        rules
    }
}

/// A pattern as a rule.
pub open spec fn pattern_rule(pattern: Seq<char>, level: usize) -> SeparatorRule {
    SeparatorRule { regex: true, pattern, level }
}

/// A literal as a rule.
pub open spec fn literal_rule(pattern: Seq<char>, level: usize) -> SeparatorRule {
    SeparatorRule { regex: false, pattern, level }
}

/// The hierarchy of separators, strongest first: paragraph breaks, the
/// three headers, line breaks, the three sentence ends, semicolon and
/// comma, and the space.
pub open spec fn standard_rules() -> Seq<SeparatorRule> {
    let r0 = with_rule(Seq::empty(), pattern_rule(r"\n\n+"@, 0));
    let r1 = with_rule(r0, pattern_rule(r"\n### "@, 1));
    let r2 = with_rule(r1, pattern_rule(r"\n## "@, 1));
    let r3 = with_rule(r2, pattern_rule(r"\n# "@, 1));
    let r4 = with_rule(r3, literal_rule("\n"@, 2));
    let r5 = with_rule(r4, literal_rule(". "@, 3));
    let r6 = with_rule(r5, literal_rule("? "@, 3));
    let r7 = with_rule(r6, literal_rule("! "@, 3));
    let r8 = with_rule(r7, literal_rule("; "@, 4));
    let r9 = with_rule(r8, literal_rule(", "@, 4));
    with_rule(r9, literal_rule(" "@, 5))
}

/// The rule of a separator.
spec fn rule_of(separator: SeparatorPattern) -> SeparatorRule {
    match separator.pattern {
        SeparatorType::Regex(re) => pattern_rule(regex_source(re), separator.level),
        SeparatorType::Literal(literal) => literal_rule(literal@, separator.level),
    }
}

/// The rules of a list of separators.
spec fn rules_of(separators: Seq<SeparatorPattern>) -> Seq<SeparatorRule> {
    separators.map_values(|s: SeparatorPattern| rule_of(s))
}

/// The byte spans at which a separator matches in a text.
spec fn spans_of(separator: SeparatorPattern, text: Seq<char>) -> Seq<(usize, usize)> {
    match separator.pattern {
        SeparatorType::Regex(re) => regex_matches(re, text),
        SeparatorType::Literal(literal) => literal_spans(encode_utf8(text), encode_utf8(literal@), 0),
    }
}

/// The segment lies in the page: its offsets are in order and in the page,
/// and its text is the text of the page between them.
pub open spec fn within(page: Seq<u8>, segment: SegmentView) -> bool {
    &&& segment.start_offset <= segment.end_offset <= page.len()
    &&& encode_utf8(segment.text) == page.subrange(segment.start_offset as int, segment.end_offset as int)
}

/// The segments lie in the page between two offsets, in the order of the
/// page, none overlapping the next.
pub open spec fn laid_out(page: Seq<u8>, segments: Seq<SegmentView>, from: int, to: int) -> bool {
    &&& forall|i: int| 0 <= i < segments.len() ==> within(page, #[trigger] segments[i])
    &&& forall|i: int|
        0 <= i < segments.len() ==> from <= (#[trigger] segments[i]).start_offset && segments[i].end_offset <= to
    &&& forall|i: int, j: int|
        0 <= i < j < segments.len() ==> (#[trigger] segments[i]).end_offset <= (#[trigger] segments[j]).start_offset
}

/// The pieces of a text that are not blank, as segments of the page in
/// which the text starts at `page_start`.
pub open spec fn piece_segments(page_start: usize, text: Seq<char>, pieces: Seq<(usize, usize)>, level: usize) -> Seq<SegmentView>
    decreases pieces.len(),
{
    if pieces.len() == 0 {
        Seq::empty()
    } else {
        let rest = piece_segments(page_start, text, pieces.drop_last(), level);
        let piece = pieces.last();
        let part = decode_utf8(encode_utf8(text).subrange(piece.0 as int, piece.1 as int));
        if blank(part) {
            rest
        } else {
            rest.push(
                SegmentView {
                    text: part,
                    start_offset: (page_start + piece.0) as usize,
                    end_offset: (page_start + piece.1) as usize,
                    semantic_level: level,
                },
            )
        }
    }
}

/// No piece that becomes a segment is blank, and each such segment has the
/// level of the separator that cut it out.
pub proof fn law_pieces_not_blank(page_start: usize, text: Seq<char>, pieces: Seq<(usize, usize)>, level: usize)
    ensures
        forall|i: int|
            0 <= i < piece_segments(page_start, text, pieces, level).len() ==> !blank(
                (#[trigger] piece_segments(page_start, text, pieces, level)[i]).text,
            ) && piece_segments(page_start, text, pieces, level)[i].semantic_level == level,
    decreases pieces.len(),
{
    if pieces.len() > 0 {
        law_pieces_not_blank(page_start, text, pieces.drop_last(), level);
        let rest = piece_segments(page_start, text, pieces.drop_last(), level);
        let all = piece_segments(page_start, text, pieces, level);
        assert forall|i: int| 0 <= i < all.len() implies !blank((#[trigger] all[i]).text) && all[i].semantic_level
            == level by {
            if i < rest.len() {
                assert(all[i] == rest[i]);
            }
        }
    }
}

/// A copy of a segment.
fn copy_segment(segment: &Segment) -> (r: Segment)
    ensures
        r@ == segment@,
{
    Segment {
        text: segment.text.clone(),
        start_offset: segment.start_offset,
        end_offset: segment.end_offset,
        semantic_level: segment.semantic_level,
    }
}

/// Cuts a page into segments along a hierarchy of separators: the
/// strongest separator first, weaker ones only for what is still too large.
pub struct SemanticSegmenter {
    separators: Vec<SeparatorPattern>,
}

impl SemanticSegmenter {
    /// The separators of the segmenter, strongest first.
    pub closed spec fn rules(&self) -> Seq<SeparatorRule> {
        rules_of(self.separators@)
    }

    /// The byte spans at which the separator with a given index matches in
    /// a text.
    pub closed spec fn separator_spans(&self, index: int, text: Seq<char>) -> Seq<(usize, usize)> {
        spans_of(self.separators@[index], text)
    }

    /// What a segment is cut into by the separator with a given index: its
    /// pieces that are not blank, at their offsets in the page and with
    /// the level of the separator; the segment itself where there are
    /// fewer than two such pieces, or no such separator.
    pub open spec fn split_spec(&self, segment: SegmentView, index: int) -> Seq<SegmentView> {
        if index < 0 || index >= self.rules().len() {
            seq![segment]
        } else {
            let pieces = gaps(encode_utf8(segment.text), self.separator_spans(index, segment.text));
            let parts = piece_segments(segment.start_offset, segment.text, pieces, self.rules()[index].level);
            if parts.len() > 1 {
                parts
            } else {
                seq![segment]
            }
        }
    }

    /// The segments that a list of segments is refined into from the
    /// separator with a given index on: a segment that fits the budget
    /// stays; one that does not is cut by the separator and its pieces are
    /// refined by the next separator. After the last separator every
    /// segment stays.
    pub open spec fn refine(&self, tokenizer: &CoreBPE, max_tokens: usize, segments: Seq<SegmentView>, index: int) -> Seq<SegmentView>
        decreases self.rules().len() - index, segments.len(),
    {
        if index < 0 || index >= self.rules().len() {
            segments
        } else if segments.len() == 0 {
            Seq::empty()
        } else {
            self.refine(tokenizer, max_tokens, segments.drop_last(), index) + (if token_count(
                tokenizer,
                segments.last().text,
            ) <= max_tokens {
                seq![segments.last()]
            } else {
                self.refine(tokenizer, max_tokens, self.split_spec(segments.last(), index), index + 1)
            })
        }
    }

    /// The segments of a page: the whole page, refined from the strongest
    /// separator on.
    pub open spec fn segment_spec(&self, tokenizer: &CoreBPE, max_tokens: usize, text: Seq<char>) -> Seq<SegmentView> {
        self.refine(
            tokenizer,
            max_tokens,
            seq![
                SegmentView {
                    text,
                    start_offset: 0,
                    end_offset: encode_utf8(text).len() as usize,
                    semantic_level: 0,
                },
            ],
            0,
        )
    }

    /// Adds a pattern to the separators, unless it does not compile.
    fn add_regex(separators: &mut Vec<SeparatorPattern>, pattern: &str, level: usize)
        ensures
            rules_of(final(separators)@) == with_rule(rules_of(old(separators)@), pattern_rule(pattern@, level)),
    {
        match regex_compile(pattern) {
            Ok(re) => {
                separators.push(SeparatorPattern { pattern: SeparatorType::Regex(re), level });
                assert(rules_of(separators@) =~= rules_of(old(separators)@).push(pattern_rule(pattern@, level)));
            },
            Err(_) => {},
        }
    }

    /// Adds a literal to the separators.
    fn add_literal(separators: &mut Vec<SeparatorPattern>, literal: &str, level: usize)
        ensures
            rules_of(final(separators)@) == with_rule(rules_of(old(separators)@), literal_rule(literal@, level)),
    {
        separators.push(SeparatorPattern { pattern: SeparatorType::Literal(literal.to_owned()), level });
        assert(rules_of(separators@) =~= rules_of(old(separators)@).push(literal_rule(literal@, level)));
    }

    /// A segmenter with the standard hierarchy of separators.
    pub fn new() -> (r: Self)
        ensures
            r.rules() == standard_rules(),
    {
        let mut separators: Vec<SeparatorPattern> = Vec::new();
        assert(rules_of(separators@) =~= Seq::empty());
        Self::add_regex(&mut separators, r"\n\n+", 0);
        Self::add_regex(&mut separators, r"\n### ", 1);
        Self::add_regex(&mut separators, r"\n## ", 1);
        Self::add_regex(&mut separators, r"\n# ", 1);
        Self::add_literal(&mut separators, "\n", 2);
        Self::add_literal(&mut separators, ". ", 3);
        Self::add_literal(&mut separators, "? ", 3);
        Self::add_literal(&mut separators, "! ", 3);
        Self::add_literal(&mut separators, "; ", 4);
        Self::add_literal(&mut separators, ", ", 4);
        Self::add_literal(&mut separators, " ", 5);
        SemanticSegmenter { separators }
    }

    /// Cuts a page into segments of at most `max_tokens` tokens each, as far
    /// as the separators allow. The segments lie in the page at their
    /// offsets, in the order of the page.
    pub fn segment(&self, text: &str, max_tokens: usize, tokenizer: &CoreBPE) -> (r: Vec<Segment>)
        ensures
            segment_views(r@) == self.segment_spec(tokenizer, max_tokens, text@),
            laid_out(text.spec_bytes(), segment_views(r@), 0, text.spec_bytes().len() as int),
    {
        let length: usize = text.as_bytes().len();
        let initial_segment = Segment {
            text: text.to_owned(),
            start_offset: 0,
            end_offset: length,
            semantic_level: 0,
        };
        let ghost page = text.spec_bytes();
        let mut segments: Vec<Segment> = Vec::new();
        segments.push(initial_segment);
        proof {
            assert(segment_views(segments@) =~= seq![
                SegmentView {
                    text: text@,
                    start_offset: 0,
                    end_offset: encode_utf8(text@).len() as usize,
                    semantic_level: 0,
                },
            ]);
            assert(page.subrange(0, length as int) =~= page);
        }
        self.recursive_split(Ghost(page), Ghost(0), Ghost(length as int), segments, max_tokens, tokenizer, 0)
    }

    /// Refines segments from the separator with a given index on.
    fn recursive_split(
        &self,
        Ghost(page): Ghost<Seq<u8>>,
        Ghost(from): Ghost<int>,
        Ghost(to): Ghost<int>,
        segments: Vec<Segment>,
        max_tokens: usize,
        tokenizer: &CoreBPE,
        separator_level: usize,
    ) -> (r: Vec<Segment>)
        requires
            page.len() <= usize::MAX,
            laid_out(page, segment_views(segments@), from, to),
        ensures
            segment_views(r@) == self.refine(tokenizer, max_tokens, segment_views(segments@), separator_level as int),
            laid_out(page, segment_views(r@), from, to),
        decreases self.separators@.len() - separator_level,
    {
        if separator_level >= self.separators.len() {
            return segments;
        }
        let ghost views = segment_views(segments@);
        let mut result: Vec<Segment> = Vec::new();
        let mut i: usize = 0;
        assert(views.subrange(0, 0) =~= Seq::empty());
        assert(segment_views(result@) =~= Seq::empty());
        while i < segments.len()
            invariant
                i <= segments.len(),
                separator_level < self.separators.len(),
                page.len() <= usize::MAX,
                views == segment_views(segments@),
                laid_out(page, views, from, to),
                segment_views(result@) == self.refine(
                    tokenizer,
                    max_tokens,
                    views.subrange(0, i as int),
                    separator_level as int,
                ),
                laid_out(page, segment_views(result@), from, to),
                forall|k: int|
                    0 <= k < result@.len() && i < segments@.len() ==> (#[trigger] segment_views(result@)[k]).end_offset
                        <= views[i as int].start_offset,
            decreases segments.len() - i,
        {
            let segment = &segments[i];
            let ghost upto = views.subrange(0, i + 1);
            assert(upto.drop_last() =~= views.subrange(0, i as int));
            assert(upto.last() == segment@);
            assert(views[i as int] == segment@);
            assert(within(page, segment@));
            let ghost before = segment_views(result@);
            let count = tokenizer.encode_ordinary(segment.text.as_str()).len();
            let mut more: Vec<Segment> = if count <= max_tokens {
                let mut same: Vec<Segment> = Vec::new();
                same.push(copy_segment(segment));
                assert(segment_views(same@) =~= seq![segment@]);
                same
            } else {
                let pieces = self.split_segment(Ghost(page), segment, separator_level);
                self.recursive_split(
                    Ghost(page),
                    Ghost(segment.start_offset as int),
                    Ghost(segment.end_offset as int),
                    pieces,
                    max_tokens,
                    tokenizer,
                    separator_level + 1,
                )
            };
            let ghost added = segment_views(more@);
            assert(laid_out(page, added, segment.start_offset as int, segment.end_offset as int));
            result.append(&mut more);
            proof {
                let after = segment_views(result@);
                assert(after =~= before + added);
                assert forall|k: int| 0 <= k < after.len() implies within(page, #[trigger] after[k]) && from
                    <= after[k].start_offset && after[k].end_offset <= to && after[k].end_offset
                    <= segment.end_offset by {
                    if k < before.len() {
                        assert(after[k] == before[k]);
                    } else {
                        assert(after[k] == added[k - before.len()]);
                    }
                }
                assert forall|a: int, b: int| 0 <= a < b < after.len() implies (#[trigger] after[a]).end_offset <= (
                #[trigger] after[b]).start_offset by {
                    if b < before.len() {
                        assert(after[a] == before[a] && after[b] == before[b]);
                    } else if a < before.len() {
                        assert(after[a] == before[a] && after[b] == added[b - before.len()]);
                    } else {
                        assert(after[a] == added[a - before.len()] && after[b] == added[b - before.len()]);
                    }
                }
                if i + 1 < segments@.len() {
                    assert(views[i as int].end_offset <= views[i + 1].start_offset);
                }
            }
            i += 1;
        }
        assert(views.subrange(0, segments.len() as int) =~= views);
        result
    }

    /// The pieces of a text between the matches of a pattern.
    fn split_by_regex(&self, text: &str, regex: &Regex) -> (pieces: Vec<(usize, usize)>)
        ensures
            pieces@ == gaps(text.spec_bytes(), regex_matches(*regex, text@)),
            forall|i: int| 0 <= i < pieces@.len() ==> piece_ok(text.spec_bytes(), #[trigger] pieces@[i]),
            pieces_ordered(pieces@),
    {
        let spans = regex_find_all(regex, text);
        cut_pieces(text, &spans)
    }

    /// The pieces of a text between the occurrences of a literal.
    fn split_by_literal(&self, text: &str, separator: &str) -> (pieces: Vec<(usize, usize)>)
        ensures
            pieces@ == gaps(text.spec_bytes(), literal_spans(text.spec_bytes(), separator.spec_bytes(), 0)),
            forall|i: int| 0 <= i < pieces@.len() ==> piece_ok(text.spec_bytes(), #[trigger] pieces@[i]),
            pieces_ordered(pieces@),
    {
        let spans = literal_matches(text.as_bytes(), separator.as_bytes());
        cut_pieces(text, &spans)
    }

    /// Cuts a segment by the separator with a given index.
    fn split_segment(&self, Ghost(page): Ghost<Seq<u8>>, segment: &Segment, separator_level: usize) -> (r: Vec<Segment>)
        requires
            within(page, segment@),
            page.len() <= usize::MAX,
        ensures
            segment_views(r@) == self.split_spec(segment@, separator_level as int),
            laid_out(page, segment_views(r@), segment.start_offset as int, segment.end_offset as int),
    {
        if separator_level >= self.separators.len() {
            let mut same: Vec<Segment> = Vec::new();
            same.push(copy_segment(segment));
            assert(segment_views(same@) =~= seq![segment@]);
            return same;
        }
        let separator = &self.separators[separator_level];
        let text = segment.text.as_str();
        let ghost bytes = text.spec_bytes();
        let splits = match &separator.pattern {
            SeparatorType::Regex(regex) => self.split_by_regex(text, regex),
            SeparatorType::Literal(literal) => self.split_by_literal(text, literal.as_str()),
        };
        assert(splits@ == gaps(bytes, self.separator_spans(separator_level as int, segment.text@)));
        let level: usize = separator.level;
        assert(level == self.rules()[separator_level as int].level);
        let mut result: Vec<Segment> = Vec::new();
        let mut i: usize = 0;
        assert(splits@.subrange(0, 0) =~= Seq::empty());
        assert(segment_views(result@) =~= Seq::empty());
        while i < splits.len()
            invariant
                i <= splits.len(),
                within(page, segment@),
                page.len() <= usize::MAX,
                text@ == segment.text@,
                bytes == text.spec_bytes(),
                forall|k: int| 0 <= k < splits@.len() ==> piece_ok(bytes, #[trigger] splits@[k]),
                pieces_ordered(splits@),
                segment_views(result@) == piece_segments(
                    segment.start_offset,
                    segment.text@,
                    splits@.subrange(0, i as int),
                    level,
                ),
                laid_out(page, segment_views(result@), segment.start_offset as int, segment.end_offset as int),
                forall|k: int|
                    0 <= k < result@.len() && i < splits@.len() ==> (#[trigger] segment_views(result@)[k]).end_offset
                        <= segment.start_offset + splits@[i as int].0,
            decreases splits.len() - i,
        {
            let from: usize = splits[i].0;
            let to: usize = splits[i].1;
            let ghost upto = splits@.subrange(0, i + 1);
            assert(upto.drop_last() =~= splits@.subrange(0, i as int));
            assert(upto.last() == splits@[i as int]);
            assert(piece_ok(bytes, splits@[i as int]));
            let ghost before = segment_views(result@);
            match slice_text(text, from, to) {
                Some(part) => {
                    proof {
                        encode_utf8_decode_utf8(part@);
                        assert(bytes.subrange(from as int, to as int) =~= page.subrange(
                            segment.start_offset + from,
                            segment.start_offset + to,
                        ));
                    }
                    if !is_blank(part.as_str()) {
                        let piece = Segment {
                            text: part,
                            start_offset: segment.start_offset + from,
                            end_offset: segment.start_offset + to,
                            semantic_level: level,
                        };
                        let ghost added = piece@;
                        result.push(piece);
                        proof {
                            assert(segment_views(result@) =~= before.push(added));
                            assert(within(page, added));
                            assert forall|a: int, b: int| 0 <= a < b < before.push(added).len() implies (
                            #[trigger] before.push(added)[a]).end_offset <= (#[trigger] before.push(added)[b]).start_offset by {
                                if b < before.len() {
                                    assert(before.push(added)[a] == before[a]);
                                    assert(before.push(added)[b] == before[b]);
                                } else {
                                    assert(before.push(added)[a] == before[a]);
                                }
                            }
                        }
                    }
                },
                None => {
                    assert(false);
                },
            }
            proof {
                if i + 1 < splits@.len() {
                    assert(splits@[i as int].1 <= splits@[i + 1].0);
                    assert forall|k: int| 0 <= k < result@.len() implies (#[trigger] segment_views(result@)[k]).end_offset
                        <= segment.start_offset + splits@[i + 1].0 by {
                        if k < before.len() {
                            assert(segment_views(result@)[k] == before[k]);
                        }
                    }
                }
            }
            i += 1;
        }
        assert(splits@.subrange(0, splits.len() as int) =~= splits@);
        if result.len() <= 1 {
            let mut same: Vec<Segment> = Vec::new();
            same.push(copy_segment(segment));
            assert(segment_views(same@) =~= seq![segment@]);
            return same;
        }
        result
    }
}

} // verus!

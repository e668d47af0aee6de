//! The markup-to-annotated-text converter.
//!
//! A markup parser turns raw wiki text into a tree of nodes; this module
//! walks the top-level node sequence once, accumulating flattened plain text
//! and emitting one entity span per link, with exact byte offsets into the
//! UTF-8 encoding of the accumulated text.  A heading whose first direct
//! text child names a boilerplate section ("References", "History", "Video",
//! "Gallery") stops the walk: nothing after it is emitted.
//!
//! The tree provider itself stays outside the library: it is not trusted to
//! return on every input, so the surrounding tooling builds the tree behind
//! a fault boundary and hands the walk a plain node sequence.  Only the node
//! kinds the walker reads are modelled; a link's display tree and a
//! heading's inner tree are flattened over their *direct* children only, so
//! the children are carried as plain text fragments or an opaque marker.

use crate::strings::byte_len;
use crate::strings::lemma_ascii_singleton_byte_len;
use crate::strings::lemma_byte_len_concat;
use crate::strings::str_eq;
use vstd::prelude::*;
use vstd::string::StringExecFns;
use vstd::utf8::encode_utf8;

verus! {

/// A direct child of a link's display tree or of a heading: either a plain
/// text fragment or a node of some other kind, which the walker ignores.
#[derive(Debug, Clone)]
pub enum InlineNode {
    Text(String),
    Other,
}

/// A top-level markup node, as the walker reads it: plain text, a link with
/// its target and display children, a heading with its inner children, a
/// paragraph break, or a node of any other kind, which the walker ignores.
#[derive(Debug, Clone)]
pub enum MarkupNode {
    Text(String),
    Link { target: String, display: Vec<InlineNode> },
    Heading(Vec<InlineNode>),
    ParagraphBreak,
    Other,
}

/// Why a document could not be converted.
#[derive(Debug, Clone, Copy, PartialEq, Eq, Structural)]
pub enum ParseFailure {
    /// The markup tree could not be walked into a well-formed document: some
    /// link's byte offsets would not fit the entity span fields.  The
    /// surrounding batch tooling also records under this failure any
    /// crash-class fault of the third-party markup parser it catches.
    Crashed,
}

/// An entity span: the byte range `start..end` of the flattened text that a
/// link covered, the displayed text `repr` it contributed, and the raw link
/// `target` as written in the markup.
#[derive(Debug, Clone, PartialEq, Eq)]
pub struct Entity {
    pub start: u32,
    pub end: u32,
    pub repr: String,
    pub target: String,
}

/// A converted document: the flattened text and the entity spans in emission
/// order.
#[derive(Debug, Clone, PartialEq, Eq)]
pub struct Doc {
    pub text: String,
    pub entities: Vec<Entity>,
}

/// Mathematical image of an [`Entity`]: offsets as integers, strings as
/// character sequences.
#[verifier::ext_equal]
pub ghost struct EntityModel {
    pub start: int,
    pub end: int,
    pub repr: Seq<char>,
    pub target: Seq<char>,
}

/// Mathematical image of a [`Doc`].
#[verifier::ext_equal]
pub ghost struct DocModel {
    pub text: Seq<char>,
    pub entities: Seq<EntityModel>,
}

impl View for Entity {
    type V = EntityModel;

    open spec fn view(&self) -> EntityModel {
        EntityModel {
            start: self.start as int,
            end: self.end as int,
            repr: self.repr@,
            target: self.target@,
        }
    }
}

impl View for Doc {
    type V = DocModel;

    open spec fn view(&self) -> DocModel {
        DocModel { text: self.text@, entities: entity_views(self.entities@) }
    }
}

/// The views of a sequence of entities.
pub open spec fn entity_views(s: Seq<Entity>) -> Seq<EntityModel> {
    Seq::new(s.len(), |i: int| s[i]@)
}

/// The views of a sequence of string slices.
pub open spec fn str_views(s: Seq<&str>) -> Seq<Seq<char>> {
    Seq::new(s.len(), |i: int| s[i]@)
}

/// The text values of the direct `Text` children of a node sequence, in
/// order.  This is the flattening rule shared by the section gate and the
/// link branch: nothing below the direct children is inspected.
pub open spec fn text_values(nodes: Seq<InlineNode>) -> Seq<Seq<char>>
    decreases nodes.len(),
{
    if nodes.len() == 0 {
        Seq::empty()
    } else {
        let rest = text_values(nodes.drop_first());
        match nodes[0] {
            InlineNode::Text(s) => seq![s@] + rest,
            InlineNode::Other => rest,
        }
    }
}

/// Concatenation of a sequence of character sequences.
pub open spec fn concat_values(vals: Seq<Seq<char>>) -> Seq<char>
    decreases vals.len(),
{
    if vals.len() == 0 {
        Seq::empty()
    } else {
        vals[0] + concat_values(vals.drop_first())
    }
}

/// The concatenation of the direct `Text` children of a node sequence: what a
/// link's display tree contributes to the flattened text.
pub open spec fn flat_text(nodes: Seq<InlineNode>) -> Seq<char>
    decreases nodes.len(),
{
    if nodes.len() == 0 {
        Seq::empty()
    } else {
        let rest = flat_text(nodes.drop_first());
        match nodes[0] {
            InlineNode::Text(s) => s@ + rest,
            InlineNode::Other => rest,
        }
    }
}

/// The fixed denylist of boilerplate section titles, compared exactly and
/// case-sensitively.
pub open spec fn is_stop_title(t: Seq<char>) -> bool {
    ||| t == "References"@
    ||| t == "History"@
    ||| t == "Video"@
    ||| t == "Gallery"@
}

/// The section gate: a heading stops the walk exactly when the *first* text
/// value among its direct children is one of the denylisted titles.  A
/// heading with no text children never stops the walk.
pub open spec fn should_stop(nodes: Seq<InlineNode>) -> bool {
    text_values(nodes).len() > 0 && is_stop_title(text_values(nodes)[0])
}

/// Flattening a node sequence concatenates exactly its text values.
pub proof fn lemma_flat_text_is_concat(nodes: Seq<InlineNode>)
    ensures
        flat_text(nodes) == concat_values(text_values(nodes)),
    decreases nodes.len(),
{
    if nodes.len() == 0 {
    } else {
        lemma_flat_text_is_concat(nodes.drop_first());
        match nodes[0] {
            InlineNode::Text(s) => {
                let rest = text_values(nodes.drop_first());
                assert((seq![s@] + rest)[0] == s@);
                assert((seq![s@] + rest).drop_first() =~= rest);
                assert(flat_text(nodes) =~= concat_values(text_values(nodes)));
            },
            InlineNode::Other => {},
        }
    }
}

/// Basic facts about dropping the head of a suffix.
proof fn lemma_skip_step<A>(s: Seq<A>, i: int)
    requires
        0 <= i < s.len(),
    ensures
        s.skip(i).len() == s.len() - i,
        s.skip(i)[0] == s[i],
        s.skip(i).drop_first() =~= s.skip(i + 1),
{
}

/// Collects the direct `Text` values of a node sequence, in order: the shared
/// flattening helper of the section gate and the link branch.
pub fn collect_text<'a>(nodes: &'a Vec<InlineNode>) -> (r: Vec<&'a str>)
    ensures
        str_views(r@) == text_values(nodes@),
{
    let mut r: Vec<&str> = Vec::new();
    let n = nodes.len();
    let mut i: usize = 0;
    proof {
        assert(nodes@.skip(0) =~= nodes@);
        assert(str_views(r@) + text_values(nodes@) =~= text_values(nodes@));
    }
    while i < n
        invariant
            i <= n,
            n == nodes@.len(),
            text_values(nodes@) == str_views(r@) + text_values(nodes@.skip(i as int)),
        decreases n - i,
    {
        proof {
            lemma_skip_step(nodes@, i as int);
        }
        let ghost prev = r@;
        match &nodes[i] {
            InlineNode::Text(s) => {
                r.push(s.as_str());
                proof {
                    assert(str_views(r@) =~= str_views(prev) + seq![s@]);
                    assert(str_views(prev) + seq![s@] + text_values(nodes@.skip(i + 1)) =~= str_views(
                        prev,
                    ) + (seq![s@] + text_values(nodes@.skip(i + 1))));
                }
            },
            InlineNode::Other => {},
        }
        i += 1;
    }
    proof {
        assert(nodes@.skip(n as int) =~= Seq::<InlineNode>::empty());
        assert(text_values(nodes@) =~= str_views(r@));
    }
    r
}

/// What a single non-stopping node contributes to the flattened text: a text
/// node its value, a link the flattened text of its display children, a
/// paragraph break or a surviving heading one newline, anything else nothing.
pub open spec fn node_text(n: MarkupNode) -> Seq<char> {
    match n {
        MarkupNode::Text(s) => s@,
        MarkupNode::Link { target: _, display } => flat_text(display@),
        MarkupNode::Heading(_) => seq!['\n'],
        MarkupNode::ParagraphBreak => seq!['\n'],
        MarkupNode::Other => Seq::empty(),
    }
}

/// Whether a node terminates the walk: only a heading the section gate stops
/// on does.
pub open spec fn node_stops(n: MarkupNode) -> bool {
    match n {
        MarkupNode::Heading(inner) => should_stop(inner@),
        _ => false,
    }
}

/// The flattened text of a walk over a node sequence: contributions of the
/// nodes in order, cut off at the first stopping heading.
pub open spec fn walk_text(nodes: Seq<MarkupNode>) -> Seq<char>
    decreases nodes.len(),
{
    if nodes.len() == 0 {
        Seq::empty()
    } else if node_stops(nodes[0]) {
        Seq::empty()
    } else {
        node_text(nodes[0]) + walk_text(nodes.drop_first())
    }
}

/// The entity a single node emits when the walk reaches it at byte offset
/// `count`: a link emits one span covering exactly its display text, any
/// other node emits none.
pub open spec fn node_entities(n: MarkupNode, count: int) -> Seq<EntityModel> {
    match n {
        MarkupNode::Link { target, display } => seq![
            EntityModel {
                start: count,
                end: count + byte_len(flat_text(display@)),
                repr: flat_text(display@),
                target: target@,
            },
        ],
        _ => Seq::empty(),
    }
}

/// The entities of a walk starting at byte offset `count`, in emission order,
/// cut off at the first stopping heading.
pub open spec fn walk_entities(nodes: Seq<MarkupNode>, count: int) -> Seq<EntityModel>
    decreases nodes.len(),
{
    if nodes.len() == 0 {
        Seq::empty()
    } else if node_stops(nodes[0]) {
        Seq::empty()
    } else {
        node_entities(nodes[0], count) + walk_entities(
            nodes.drop_first(),
            count + byte_len(node_text(nodes[0])),
        )
    }
}

/// The complete mathematical result of converting a node sequence.
pub open spec fn doc_model(nodes: Seq<MarkupNode>) -> DocModel {
    DocModel { text: walk_text(nodes), entities: walk_entities(nodes, 0) }
}

/// An entity span is coherent with a text: its byte range lies inside the
/// UTF-8 encoding of the text and reproduces exactly the bytes of its repr.
pub open spec fn entity_in_text(e: EntityModel, text: Seq<char>) -> bool {
    &&& 0 <= e.start <= e.end <= byte_len(text)
    &&& e.end - e.start == byte_len(e.repr)
    &&& encode_utf8(text).subrange(e.start, e.end) == encode_utf8(e.repr)
}

impl Doc {
    /// Well-formedness: every entity reproduces its byte range of the text,
    /// and entities are ordered by non-decreasing start offset.
    pub open spec fn wf(self) -> bool {
        &&& forall|k: int|
            0 <= k < self@.entities.len() ==> entity_in_text(
                #[trigger] self@.entities[k],
                self.text@,
            )
        &&& forall|k: int, l: int|
            #![trigger self@.entities[k].start, self@.entities[l].start]
            0 <= k <= l < self@.entities.len() ==> self@.entities[k].start
                <= self@.entities[l].start
    }
}

/// The central invariant of the walk: starting from any already-flattened
/// prefix, every emitted entity lies past the prefix, inside the final text,
/// reproduces its byte range, and entities are sorted by start offset.
pub proof fn lemma_walk_entities_wf(nodes: Seq<MarkupNode>, prefix: Seq<char>)
    ensures
        ({
            let ents = walk_entities(nodes, byte_len(prefix) as int);
            let full = prefix + walk_text(nodes);
            &&& forall|k: int|
                0 <= k < ents.len() ==> {
                    &&& byte_len(prefix) <= (#[trigger] ents[k]).start
                    &&& entity_in_text(ents[k], full)
                }
            &&& forall|k: int, l: int|
                #![trigger ents[k].start, ents[l].start]
                0 <= k <= l < ents.len() ==> ents[k].start <= ents[l].start
        }),
    decreases nodes.len(),
{
    let c = byte_len(prefix) as int;
    let ents = walk_entities(nodes, c);
    let full = prefix + walk_text(nodes);
    if nodes.len() == 0 || node_stops(nodes[0]) {
        assert(ents.len() == 0);
    } else {
        let t0 = node_text(nodes[0]);
        let rest = nodes.drop_first();
        let prefix2 = prefix + t0;
        lemma_byte_len_concat(prefix, t0);
        lemma_walk_entities_wf(rest, prefix2);
        let tail = walk_entities(rest, byte_len(prefix2) as int);
        let full2 = prefix2 + walk_text(rest);
        assert(full =~= full2);
        lemma_byte_len_concat(prefix2, walk_text(rest));
        crate::strings::lemma_encode_utf8_concat(prefix, t0);
        crate::strings::lemma_encode_utf8_concat(prefix2, walk_text(rest));
        assert(ents =~= node_entities(nodes[0], c) + tail);
        match nodes[0] {
            MarkupNode::Link { target, display } => {
                let e = EntityModel {
                    start: c,
                    end: c + byte_len(flat_text(display@)),
                    repr: flat_text(display@),
                    target: target@,
                };
                assert(t0 == flat_text(display@));
                assert(e.end == byte_len(prefix2));
                assert(byte_len(prefix2) <= byte_len(full2));
                assert(encode_utf8(full).subrange(e.start, e.end) =~= encode_utf8(e.repr));
                assert(entity_in_text(e, full));
                assert(ents[0] == e);
                assert forall|k: int| 0 <= k < ents.len() implies {
                    &&& byte_len(prefix) <= (#[trigger] ents[k]).start
                    &&& entity_in_text(ents[k], full)
                } by {
                    if k > 0 {
                        assert(ents[k] == tail[k - 1]);
                        assert(byte_len(prefix2) <= tail[k - 1].start);
                        assert(entity_in_text(tail[k - 1], full2));
                    }
                }
                assert forall|k: int, l: int|
                    0 <= k <= l < ents.len() implies #[trigger] ents[k].start
                    <= #[trigger] ents[l].start by {
                    if k > 0 {
                        assert(ents[k] == tail[k - 1] && ents[l] == tail[l - 1]);
                    } else if l > 0 {
                        assert(ents[l] == tail[l - 1]);
                        assert(byte_len(prefix2) <= tail[l - 1].start);
                    }
                }
            },
            _ => {
                assert(node_entities(nodes[0], c).len() == 0);
                assert(ents =~= tail);
                assert forall|k: int| 0 <= k < ents.len() implies {
                    &&& byte_len(prefix) <= (#[trigger] ents[k]).start
                    &&& entity_in_text(ents[k], full)
                } by {
                    assert(ents[k] == tail[k]);
                    assert(byte_len(prefix2) <= tail[k].start);
                    assert(entity_in_text(tail[k], full2));
                }
                assert forall|k: int, l: int|
                    0 <= k <= l < ents.len() implies #[trigger] ents[k].start
                    <= #[trigger] ents[l].start by {
                    assert(ents[k] == tail[k] && ents[l] == tail[l]);
                }
            },
        }
    }
}

/// The core round trip: in the converted document, every entity's byte range
/// of the flattened text equals the UTF-8 bytes of its repr, in bounds.
pub proof fn lemma_entity_round_trip(nodes: Seq<MarkupNode>)
    ensures
        forall|k: int|
            0 <= k < doc_model(nodes).entities.len() ==> entity_in_text(
                #[trigger] doc_model(nodes).entities[k],
                doc_model(nodes).text,
            ),
{
    let prefix = Seq::<char>::empty();
    assert(byte_len(prefix) == 0);
    lemma_walk_entities_wf(nodes, prefix);
    assert(prefix + walk_text(nodes) =~= walk_text(nodes));
}

/// Entities are emitted in non-decreasing start order: the order links occur
/// in the source tree.
pub proof fn lemma_entities_sorted(nodes: Seq<MarkupNode>)
    ensures
        forall|k: int, l: int|
            #![trigger doc_model(nodes).entities[k].start, doc_model(nodes).entities[l].start]
            0 <= k <= l < doc_model(nodes).entities.len() ==> doc_model(nodes).entities[k].start
                <= doc_model(nodes).entities[l].start,
{
    let prefix = Seq::<char>::empty();
    assert(byte_len(prefix) == 0);
    lemma_walk_entities_wf(nodes, prefix);
}

/// A walk over nodes holding no link emits no entities, wherever it starts.
pub proof fn lemma_no_links_no_entities(nodes: Seq<MarkupNode>, count: int)
    requires
        forall|i: int| 0 <= i < nodes.len() ==> !((#[trigger] nodes[i]) is Link),
    ensures
        walk_entities(nodes, count).len() == 0,
    decreases nodes.len(),
{
    if nodes.len() == 0 || node_stops(nodes[0]) {
    } else {
        assert(!(nodes[0] is Link));
        lemma_no_links_no_entities(nodes.drop_first(), count + byte_len(node_text(nodes[0])));
        assert(node_entities(nodes[0], count).len() == 0);
    }
}

/// The uncut concatenation of all node contributions: every text value and
/// one newline per paragraph break or heading, in source order.
pub open spec fn plain_concat(nodes: Seq<MarkupNode>) -> Seq<char>
    decreases nodes.len(),
{
    if nodes.len() == 0 {
        Seq::empty()
    } else {
        node_text(nodes[0]) + plain_concat(nodes.drop_first())
    }
}

/// When no heading stops the walk, the flattened text is the full
/// concatenation of all node contributions in source order.
pub proof fn lemma_no_stop_full_text(nodes: Seq<MarkupNode>)
    requires
        forall|i: int| 0 <= i < nodes.len() ==> !node_stops(#[trigger] nodes[i]),
    ensures
        walk_text(nodes) == plain_concat(nodes),
    decreases nodes.len(),
{
    if nodes.len() == 0 {
    } else {
        assert(!node_stops(nodes[0]));
        lemma_no_stop_full_text(nodes.drop_first());
    }
}

/// Once the walk reaches its first stopping heading, nothing at or after it
/// contributes: text and entities equal those of the strict prefix.
pub proof fn lemma_stop_truncates(nodes: Seq<MarkupNode>, i: int, count: int)
    requires
        0 <= i < nodes.len(),
        node_stops(nodes[i]),
        forall|k: int| 0 <= k < i ==> !node_stops(#[trigger] nodes[k]),
    ensures
        walk_text(nodes) == walk_text(nodes.take(i)),
        walk_entities(nodes, count) == walk_entities(nodes.take(i), count),
    decreases i,
{
    if i == 0 {
        assert(node_stops(nodes[0]));
        assert(nodes.take(0) =~= Seq::<MarkupNode>::empty());
    } else {
        assert(!node_stops(nodes[0]));
        let rest = nodes.drop_first();
        assert(rest[i - 1] == nodes[i]);
        assert forall|k: int| 0 <= k < i - 1 implies !node_stops(#[trigger] rest[k]) by {
            assert(rest[k] == nodes[k + 1]);
        }
        lemma_stop_truncates(rest, i - 1, count + byte_len(node_text(nodes[0])));
        assert(nodes.take(i)[0] == nodes[0]);
        assert(nodes.take(i).drop_first() =~= rest.take(i - 1));
    }
}

/// A heading that does not match the denylist contributes exactly one newline
/// and the walk goes on past it.
pub proof fn lemma_plain_heading_newline(nodes: Seq<MarkupNode>, count: int)
    requires
        nodes.len() > 0,
        nodes[0] is Heading,
        !node_stops(nodes[0]),
    ensures
        walk_text(nodes) == seq!['\n'] + walk_text(nodes.drop_first()),
        walk_entities(nodes, count) == walk_entities(nodes.drop_first(), count + 1),
{
    lemma_ascii_singleton_byte_len('\n');
    assert(node_text(nodes[0]) == seq!['\n']);
    assert(node_entities(nodes[0], count) =~= Seq::<EntityModel>::empty());
    assert(Seq::<EntityModel>::empty() + walk_entities(nodes.drop_first(), count + 1)
        =~= walk_entities(nodes.drop_first(), count + 1));
}

/// The section gate, as executed: collects the heading's direct text values
/// and compares the first, if any, against the denylist.
pub fn is_heading_should_break(nodes: &Vec<InlineNode>) -> (r: bool)
    ensures
        r == should_stop(nodes@),
{
    let texts = collect_text(nodes);
    if texts.len() == 0 {
        false
    } else {
        let t = texts[0];
        proof {
            assert(t@ == text_values(nodes@)[0]);
        }
        str_eq(t, "References") || str_eq(t, "History") || str_eq(t, "Video") || str_eq(
            t,
            "Gallery",
        )
    }
}

/// Appends every collected display fragment of a link to both the document
/// text and the repr accumulator.
fn append_display(out: &mut String, repr: &mut String, display: &Vec<InlineNode>)
    requires
        old(repr)@ == Seq::<char>::empty(),
    ensures
        final(out)@ == old(out)@ + final(repr)@,
        final(repr)@ == flat_text(display@),
{
    let vals = collect_text(display);
    let ghost tv = text_values(display@);
    proof {
        lemma_flat_text_is_concat(display@);
        assert(tv.skip(0) =~= tv);
        assert(out@ + repr@ =~= out@);
    }
    let n = vals.len();
    let mut j: usize = 0;
    while j < n
        invariant
            j <= n,
            n == vals@.len(),
            str_views(vals@) == tv,
            tv == text_values(display@),
            flat_text(display@) == repr@ + concat_values(tv.skip(j as int)),
            out@ == old(out)@ + repr@,
        decreases n - j,
    {
        let val = vals[j];
        proof {
            lemma_skip_step(tv, j as int);
            assert(val@ == tv[j as int]);
        }
        let ghost prev_repr = repr@;
        out.append(val);
        repr.append(val);
        proof {
            assert(out@ =~= old(out)@ + repr@);
            assert(flat_text(display@) =~= repr@ + concat_values(tv.skip(j as int + 1)));
        }
        j += 1;
    }
    proof {
        assert(tv.skip(n as int) =~= Seq::<Seq<char>>::empty());
        assert(flat_text(display@) =~= repr@);
    }
}

/// Every entity the walk over a node sequence emits has byte offsets that
/// fit the span fields.  A sequence without links fits trivially.
pub open spec fn entities_fit(nodes: Seq<MarkupNode>) -> bool {
    forall|k: int|
        0 <= k < walk_entities(nodes, 0).len() ==> (#[trigger] walk_entities(nodes, 0)[k]).end
            <= u32::MAX
}

/// The contract every conversion of a node sequence meets: the walk's exact
/// result whenever every emitted entity's byte offsets fit the span fields,
/// the typed failure when one cannot.
pub open spec fn parse_outcome(r: Result<Doc, ParseFailure>, nodes: Seq<MarkupNode>) -> bool {
    match r {
        Ok(doc) => {
            &&& doc@ == doc_model(nodes)
            &&& doc.wf()
            &&& entities_fit(nodes)
        },
        Err(f) => {
            &&& f == ParseFailure::Crashed
            &&& !entities_fit(nodes)
        },
    }
}

/// A node sequence without links always converts: no entity is emitted, so
/// no span can outgrow its fields.
pub proof fn lemma_no_links_always_fits(nodes: Seq<MarkupNode>)
    requires
        forall|i: int| 0 <= i < nodes.len() ==> !((#[trigger] nodes[i]) is Link),
    ensures
        entities_fit(nodes),
        walk_entities(nodes, 0).len() == 0,
{
    lemma_no_links_no_entities(nodes, 0);
}

impl Doc {
    /// Converts a markup node sequence into a document: a single pass over
    /// the nodes in order, accumulating flattened text and emitting one
    /// entity per link, cut off at the first stopping heading.  Fails only
    /// when some link's byte offsets would outgrow the entity span fields;
    /// in particular a sequence without links always converts.
    pub fn from_nodes(nodes: &Vec<MarkupNode>) -> (r: Result<Doc, ParseFailure>)
        ensures
            parse_outcome(r, nodes@),
    {
        let mut doc_text = String::new();
        let mut entities: Vec<Entity> = Vec::new();
        let mut stopped = false;
        let n = nodes.len();
        let mut i: usize = 0;
        proof {
            assert(nodes@.skip(0) =~= nodes@);
            assert(entity_views(entities@) =~= Seq::<EntityModel>::empty());
            assert(entity_views(entities@) + walk_entities(nodes@, 0) =~= walk_entities(
                nodes@,
                0,
            ));
            assert(doc_text@ + walk_text(nodes@) =~= walk_text(nodes@));
        }
        while i < n && !stopped
            invariant
                i <= n,
                n == nodes@.len(),
                walk_text(nodes@) == doc_text@ + (if stopped {
                    Seq::<char>::empty()
                } else {
                    walk_text(nodes@.skip(i as int))
                }),
                walk_entities(nodes@, 0) == entity_views(entities@) + (if stopped {
                    Seq::<EntityModel>::empty()
                } else {
                    walk_entities(nodes@.skip(i as int), byte_len(doc_text@) as int)
                }),
            decreases n - i,
        {
            let ghost prev_text = doc_text@;
            let ghost prev_count = byte_len(doc_text@) as int;
            let ghost prev_ents = entities@;
            proof {
                lemma_skip_step(nodes@, i as int);
            }
            match &nodes[i] {
                MarkupNode::Text(value) => {
                    let val = value.as_str();
                    doc_text.append(val);
                    proof {
                        lemma_byte_len_concat(prev_text, val@);
                        assert(walk_text(nodes@) =~= doc_text@ + walk_text(
                            nodes@.skip(i as int + 1),
                        ));
                        assert(node_entities(nodes@[i as int], prev_count) =~= Seq::<
                            EntityModel,
                        >::empty());
                        assert(walk_entities(nodes@.skip(i as int), prev_count) =~= walk_entities(
                            nodes@.skip(i as int + 1),
                            byte_len(doc_text@) as int,
                        ));
                        assert(walk_entities(nodes@, 0) =~= entity_views(entities@)
                            + walk_entities(
                            nodes@.skip(i as int + 1),
                            byte_len(doc_text@) as int,
                        ));
                    }
                },
                MarkupNode::Link { target, display } => {
                    let start = crate::strings::str_byte_len(doc_text.as_str());
                    let mut repr = String::new();
                    append_display(&mut doc_text, &mut repr, display);
                    let end = crate::strings::str_byte_len(doc_text.as_str());
                    proof {
                        assert(node_text(nodes@[i as int]) == flat_text(display@));
                        lemma_byte_len_concat(prev_text, flat_text(display@));
                        assert(end == prev_count + byte_len(flat_text(display@)));
                    }
                    if end > u32::MAX as usize {
                        proof {
                            let ghost full = walk_entities(nodes@, 0);
                            let ghost idx = entity_views(prev_ents).len() as int;
                            assert(full[idx] == walk_entities(
                                nodes@.skip(i as int),
                                prev_count,
                            )[0]);
                            assert(full[idx].end == end);
                            assert(full[idx].end > u32::MAX);
                            assert(!entities_fit(nodes@));
                        }
                        return Err(ParseFailure::Crashed);
                    }
                    let ent = Entity {
                        start: start as u32,
                        end: end as u32,
                        repr,
                        target: target.clone(),
                    };
                    entities.push(ent);
                    proof {
                        assert(ent@ == EntityModel {
                            start: prev_count,
                            end: prev_count + byte_len(flat_text(display@)),
                            repr: flat_text(display@),
                            target: target@,
                        });
                        assert(entity_views(entities@) =~= entity_views(prev_ents).push(ent@));
                        assert(node_entities(nodes@[i as int], prev_count) =~= seq![ent@]);
                        assert(entity_views(entities@) =~= entity_views(prev_ents) + seq![ent@]);
                        assert(walk_entities(nodes@, 0) =~= entity_views(entities@)
                            + walk_entities(
                            nodes@.skip(i as int + 1),
                            byte_len(doc_text@) as int,
                        ));
                        assert(walk_text(nodes@) =~= doc_text@ + walk_text(
                            nodes@.skip(i as int + 1),
                        ));
                    }
                },
                MarkupNode::Heading(inner) => {
                    if is_heading_should_break(inner) {
                        stopped = true;
                        proof {
                            assert(node_stops(nodes@[i as int]));
                            assert(walk_text(nodes@.skip(i as int)) =~= Seq::<char>::empty());
                            assert(walk_entities(nodes@.skip(i as int), prev_count) =~= Seq::<
                                EntityModel,
                            >::empty());
                        }
                    } else {
                        doc_text.append("\n");
                        proof {
                            reveal_strlit("\n");
                            assert("\n"@ =~= seq!['\n']);
                            lemma_ascii_singleton_byte_len('\n');
                            lemma_byte_len_concat(prev_text, seq!['\n']);
                            assert(!node_stops(nodes@[i as int]));
                            assert(node_text(nodes@[i as int]) == seq!['\n']);
                            assert(walk_text(nodes@) =~= doc_text@ + walk_text(
                                nodes@.skip(i as int + 1),
                            ));
                            assert(node_entities(nodes@[i as int], prev_count) =~= Seq::<
                                EntityModel,
                            >::empty());
                            assert(walk_entities(nodes@, 0) =~= entity_views(entities@)
                                + walk_entities(
                                nodes@.skip(i as int + 1),
                                byte_len(doc_text@) as int,
                            ));
                        }
                    }
                },
                MarkupNode::ParagraphBreak => {
                    doc_text.append("\n");
                    proof {
                        reveal_strlit("\n");
                        assert("\n"@ =~= seq!['\n']);
                        lemma_ascii_singleton_byte_len('\n');
                        lemma_byte_len_concat(prev_text, seq!['\n']);
                        assert(node_text(nodes@[i as int]) == seq!['\n']);
                        assert(walk_text(nodes@) =~= doc_text@ + walk_text(
                            nodes@.skip(i as int + 1),
                        ));
                        assert(node_entities(nodes@[i as int], prev_count) =~= Seq::<
                            EntityModel,
                        >::empty());
                        assert(walk_entities(nodes@, 0) =~= entity_views(entities@)
                            + walk_entities(
                            nodes@.skip(i as int + 1),
                            byte_len(doc_text@) as int,
                        ));
                    }
                },
                MarkupNode::Other => {
                    proof {
                        assert(node_text(nodes@[i as int]) =~= Seq::<char>::empty());
                        assert(node_entities(nodes@[i as int], prev_count) =~= Seq::<
                            EntityModel,
                        >::empty());
                        assert(prev_text + node_text(nodes@[i as int]) =~= prev_text);
                        assert(walk_text(nodes@) =~= doc_text@ + walk_text(
                            nodes@.skip(i as int + 1),
                        ));
                    }
                },
            }
            i += 1;
        }
        proof {
            if !stopped {
                assert(nodes@.skip(n as int) =~= Seq::<MarkupNode>::empty());
            }
            assert(walk_text(nodes@) =~= doc_text@);
            assert(walk_entities(nodes@, 0) =~= entity_views(entities@));
            lemma_entity_round_trip(nodes@);
            lemma_entities_sorted(nodes@);
            assert forall|k: int|
                0 <= k < walk_entities(nodes@, 0).len() implies (#[trigger] walk_entities(
                nodes@,
                0,
            )[k]).end <= u32::MAX by {
                assert(walk_entities(nodes@, 0)[k] == entity_views(entities@)[k]);
                assert(entity_views(entities@)[k] == entities@[k]@);
            }
        }
        let doc = Doc { text: doc_text, entities };
        proof {
            assert(doc@ =~= doc_model(nodes@));
        }
        Ok(doc)
    }
}

/// Converts a batch of documents' node sequences, each independently of the
/// rest: the outcome at every position is a function of the node sequence at
/// that position alone, so no document's failure can touch another
/// document's output.
pub fn convert_batch(docs: &Vec<Vec<MarkupNode>>) -> (r: Vec<Result<Doc, ParseFailure>>)
    ensures
        r@.len() == docs@.len(),
        forall|i: int| 0 <= i < docs@.len() ==> parse_outcome(#[trigger] r@[i], docs@[i]@),
{
    let mut r: Vec<Result<Doc, ParseFailure>> = Vec::new();
    let n = docs.len();
    let mut i: usize = 0;
    while i < n
        invariant
            i <= n,
            n == docs@.len(),
            r@.len() == i,
            forall|k: int| 0 <= k < i ==> parse_outcome(#[trigger] r@[k], docs@[k]@),
        decreases n - i,
    {
        let outcome = Doc::from_nodes(&docs[i]);
        r.push(outcome);
        i += 1;
    }
    r
}

} // verus!

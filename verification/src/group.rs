//! Segment groups: a recursive schema of groups opened by trigger tags, and
//! the partition of a flat segment sequence into a tree of group instances.

use vstd::prelude::*;

use crate::model::Segment;
use crate::text::str_eq;

verus! {

/// One segment group of a message schema: its name, the tag that opens an
/// instance of it, and its nested groups.
#[derive(Debug, Clone, Copy)]
pub struct GroupDef<'a> {
    /// The group's name, such as `SG2`.
    pub name: &'a str,
    /// The tag whose appearance opens a new instance.
    pub trigger: &'a str,
    /// The nested groups.
    pub children: &'a [GroupDef<'a>],
}

impl<'a> GroupDef<'a> {
    /// A group without nested groups.
    pub fn new(name: &'a str, trigger: &'a str) -> (r: GroupDef<'a>)
        ensures
            r.name == name,
            r.trigger == trigger,
            r.children@.len() == 0,
    {
        GroupDef { name, trigger, children: &[] }
    }

    /// A group with nested groups.
    pub fn with_children(name: &'a str, trigger: &'a str, children: &'a [GroupDef<'a>]) -> (r: GroupDef<'a>)
        ensures
            r.name == name,
            r.trigger == trigger,
            r.children == children,
    {
        GroupDef { name, trigger, children }
    }
}

/// A group instance found in a segment sequence: its name, the half-open
/// index range `[start, end)` it covers, its occurrence among same-named
/// siblings, and its nested instances.
pub struct GroupNode {
    /// The group's name.
    pub name: Seq<char>,
    /// The index of its first segment.
    pub start: int,
    /// One past the index of its last segment.
    pub end: int,
    /// How many earlier siblings have the same name.
    pub occurrence: int,
    /// The nested instances, in order.
    pub children: Seq<GroupNode>,
}

/// The first group of the schema that `tag` triggers, by index, or -1.
pub open spec fn triggered(schema: Seq<GroupDef>, tag: Seq<char>) -> int
    decreases schema.len(),
{
    if schema.len() == 0 {
        -1
    } else if triggered(schema.drop_last(), tag) >= 0 {
        triggered(schema.drop_last(), tag)
    } else if schema.last().trigger@ == tag {
        schema.len() - 1
    } else {
        -1
    }
}

/// The tags that end a group: those that end its parent, and the triggers of
/// its parent's groups.
pub open spec fn stops_with(stops: Seq<Seq<char>>, schema: Seq<GroupDef>) -> Seq<Seq<char>> {
    stops + schema.map_values(|d: GroupDef| d.trigger@)
}

/// The number of nodes named `name`.
pub open spec fn named(ns: Seq<GroupNode>, name: Seq<char>) -> int
    decreases ns.len(),
{
    if ns.len() == 0 { 0 } else { named(ns.drop_last(), name) + (if ns.last().name == name { 1int } else { 0int }) }
}

/// Reading the tags from `pos` into the groups of `schema`, with the given
/// stop tags, having found the instances `found`: the position where the
/// enclosing group ends, and its instances.  A tag opens the first group it
/// triggers here; failing that, a stop tag ends the enclosing group; any
/// other tag belongs to it directly.
pub open spec fn run(tags: Seq<Seq<char>>, schema: Seq<GroupDef>, stops: Seq<Seq<char>>, pos: int, found: Seq<GroupNode>) -> (int, Seq<GroupNode>)
    decreases tags.len() - pos,
{
    if pos < 0 || pos >= tags.len() {
        (pos, found)
    } else {
        let k = triggered(schema, tags[pos]);
        if k < 0 && stops.contains(tags[pos]) {
            (pos, found)
        } else if k < 0 {
            run(tags, schema, stops, pos + 1, found)
        } else {
            let d = schema[k];
            let (cend, cfound) = run(tags, d.children@, stops_with(stops, schema), pos + 1, Seq::empty());
            let end = if pos < cend <= tags.len() { cend } else { pos + 1 };
            let node = GroupNode { name: d.name@, start: pos, end, occurrence: named(found, d.name@), children: cfound };
            run(tags, schema, stops, end, found.push(node))
        }
    }
}

/// The tags of the segments.
pub open spec fn seg_tags(segs: Seq<Segment>) -> Seq<Seq<char>> {
    segs.map_values(|s: Segment| s.tag@)
}

/// The tree of `segs` under `schema`, its root named `root`.
pub open spec fn grouping(segs: Seq<Segment>, schema: Seq<GroupDef>, root: Seq<char>) -> GroupNode {
    let (end, found) = run(seg_tags(segs), schema, Seq::empty(), 0, Seq::empty());
    GroupNode { name: root, start: 0, end, occurrence: 0, children: found }
}

/// A group instance within a segment sequence, by index range.
#[derive(Debug)]
pub struct SegmentGroupIndexed<'a> {
    /// The group's name (or the root's).
    pub definition: &'a str,
    /// The index range of every segment of the instance, descendants included.
    pub total_span: std::ops::Range<usize>,
    /// The nested instances, in order.
    pub children: Vec<SegmentGroupIndexed<'a>>,
    /// How many earlier siblings have the same name.
    pub occurrence_index: usize,
}

/// `n` is the group instance `g`.
pub open spec fn node_is(n: SegmentGroupIndexed, g: GroupNode) -> bool
    decreases g,
{
    &&& n.definition@ == g.name
    &&& n.total_span.start == g.start
    &&& n.total_span.end == g.end
    &&& n.occurrence_index == g.occurrence
    &&& n.children@.len() == g.children.len()
    &&& forall|i: int| 0 <= i < g.children.len() ==> node_is(#[trigger] n.children@[i], g.children[i])
}

/// The instances of `v` are the nodes `g`, in order.
pub open spec fn nodes_are(v: Seq<SegmentGroupIndexed>, g: Seq<GroupNode>) -> bool {
    v.len() == g.len() && forall|i: int| 0 <= i < g.len() ==> node_is(#[trigger] v[i], g[i])
}

fn first_triggered<'g>(schema: &'g [GroupDef<'g>], tag: &str) -> (r: Option<usize>)
    ensures
        match r {
            Some(k) => k == triggered(schema@, tag@) && k < schema@.len(),
            None => triggered(schema@, tag@) == -1,
        },
{
    let mut k: usize = 0;
    while k < schema.len()
        invariant
            k <= schema@.len(),
            triggered(schema@.take(k as int), tag@) == -1,
        decreases schema@.len() - k,
    {
        proof { assert(schema@.take(k + 1).drop_last() =~= schema@.take(k as int)); }
        if str_eq(schema[k].trigger, tag) {
            proof { lemma_triggered_found(schema@, tag@, k as int); }
            return Some(k);
        }
        k = k + 1;
    }
    proof { assert(schema@.take(schema@.len() as int) =~= schema@); }
    None
}

proof fn lemma_triggered_found(schema: Seq<GroupDef>, tag: Seq<char>, k: int)
    requires
        0 <= k < schema.len(),
        triggered(schema.take(k), tag) == -1,
        schema[k].trigger@ == tag,
    ensures
        triggered(schema, tag) == k,
    decreases schema.len() - k,
{
    if k + 1 == schema.len() {
        assert(schema.drop_last() =~= schema.take(k));
    } else {
        assert(schema.drop_last().take(k) =~= schema.take(k));
        lemma_triggered_found(schema.drop_last(), tag, k);
    }
}

fn stops_contain(stops: &Vec<&str>, tag: &str) -> (r: bool)
    ensures
        r == stops@.map_values(|t: &str| t@).contains(tag@),
{
    let ghost sv = stops@.map_values(|t: &str| t@);
    let mut k: usize = 0;
    while k < stops.len()
        invariant
            k <= stops@.len(),
            sv == stops@.map_values(|t: &str| t@),
            forall|j: int| 0 <= j < k ==> sv[j] != tag@,
        decreases stops@.len() - k,
    {
        assert(sv[k as int] == stops@[k as int]@);
        if str_eq(stops[k], tag) {
            return true;
        }
        k = k + 1;
    }
    false
}

fn count_named(found: &Vec<SegmentGroupIndexed>, name: &str, Ghost(g): Ghost<Seq<GroupNode>>) -> (r: usize)
    requires
        nodes_are(found@, g),
    ensures
        r == named(g, name@),
{
    let mut n: usize = 0;
    let mut k: usize = 0;
    while k < found.len()
        invariant
            k <= found@.len(),
            nodes_are(found@, g),
            n == named(g.take(k as int), name@),
            n <= k,
        decreases found@.len() - k,
    {
        proof {
            assert(g.take(k + 1).drop_last() =~= g.take(k as int));
            assert(node_is(found@[k as int], g[k as int]));
        }
        if str_eq(found[k].definition, name) {
            n = n + 1;
        }
        k = k + 1;
    }
    proof { assert(g.take(g.len() as int) =~= g); }
    n
}

fn group_run<'g>(segments: &[Segment], from: usize, schema: &'g [GroupDef<'g>], stops: &Vec<&'g str>)
    -> (r: (usize, Vec<SegmentGroupIndexed<'g>>, Ghost<Seq<GroupNode>>))
    requires
        from <= segments@.len(),
    ensures
        from <= r.0 <= segments@.len(),
        nodes_are(r.1@, r.2@),
        run(seg_tags(segments@), schema@, stops@.map_values(|t: &str| t@), from as int, Seq::empty()) == (r.0 as int, r.2@),
    decreases segments@.len() - from,
{
    let ghost tags = seg_tags(segments@);
    let ghost sv = stops@.map_values(|t: &str| t@);
    let ghost target = run(tags, schema@, sv, from as int, Seq::empty());
    let mut found: Vec<SegmentGroupIndexed<'g>> = Vec::new();
    let ghost mut g: Seq<GroupNode> = Seq::empty();
    let mut i: usize = from;
    let mut combined: Vec<&'g str> = Vec::new();
    let mut j: usize = 0;
    while j < stops.len()
        invariant
            j <= stops@.len(),
            combined@ == stops@.take(j as int),
        decreases stops@.len() - j,
    {
        combined.push(stops[j]);
        proof { assert(combined@ =~= stops@.take(j + 1)); }
        j = j + 1;
    }
    let mut j: usize = 0;
    while j < schema.len()
        invariant
            j <= schema@.len(),
            combined@.map_values(|t: &str| t@) == sv + schema@.take(j as int).map_values(|d: GroupDef| d.trigger@),
            sv == stops@.map_values(|t: &str| t@),
        decreases schema@.len() - j,
    {
        proof {
            if j == 0 { assert(stops@.take(stops@.len() as int) =~= stops@); }
        }
        let ghost prev = combined@;
        combined.push(schema[j].trigger);
        proof {
            assert(combined@.map_values(|t: &str| t@) =~= prev.map_values(|t: &str| t@).push(schema@[j as int].trigger@));
            assert(schema@.take(j + 1).map_values(|d: GroupDef| d.trigger@)
                =~= schema@.take(j as int).map_values(|d: GroupDef| d.trigger@).push(schema@[j as int].trigger@));
        }
        j = j + 1;
    }
    proof {
        assert(schema@.take(schema@.len() as int) =~= schema@);
        if stops@.len() == 0 { assert(combined@.map_values(|t: &str| t@) =~= stops_with(sv, schema@)); }
    }
    loop
        invariant
            from <= i <= segments@.len(),
            tags == seg_tags(segments@),
            sv == stops@.map_values(|t: &str| t@),
            combined@.map_values(|t: &str| t@) == stops_with(sv, schema@),
            nodes_are(found@, g),
            target == run(tags, schema@, sv, i as int, g),
            target == run(tags, schema@, sv, from as int, Seq::empty()),
        decreases segments@.len() - i,
    {
        if i >= segments.len() {
            proof {
                assert(run(tags, schema@, sv, i as int, g) == (i as int, g));
                assert(nodes_are(found@, g));
                assert(stops@.map_values(|t: &str| t@) =~= sv);
            }
            return (i, found, Ghost(g));
        }
        let tag = segments[i].tag.as_str();
        assert(tags[i as int] == tag@);
        match first_triggered(schema, tag) {
            None => {
                if stops_contain(stops, tag) {
                    proof {
                        assert(run(tags, schema@, sv, i as int, g) == (i as int, g));
                        assert(nodes_are(found@, g));
                        assert(stops@.map_values(|t: &str| t@) =~= sv);
                    }
                    return (i, found, Ghost(g));
                }
                i = i + 1;
            },
            Some(k) => {
                let d = schema[k];
                let (cend, children, Ghost(cg)) = group_run(segments, i + 1, d.children, &combined);
                proof { assert(combined@.map_values(|t: &str| t@) =~= stops_with(sv, schema@)); }
                let occurrence = count_named(&found, d.name, Ghost(g));
                let node = SegmentGroupIndexed {
                    definition: d.name,
                    total_span: std::ops::Range { start: i, end: cend },
                    children,
                    occurrence_index: occurrence,
                };
                let ghost gn = GroupNode { name: d.name@, start: i as int, end: cend as int, occurrence: occurrence as int, children: cg };
                proof {
                    assert(node_is(node, gn));
                    let gp = g.push(gn);
                    assert(nodes_are(found@.push(node), gp)) by {
                        assert forall|x: int| 0 <= x < gp.len() implies node_is(#[trigger] found@.push(node)[x], gp[x]) by {
                            if x < g.len() { assert(node_is(found@[x], g[x])); }
                        }
                    }
                    g = gp;
                }
                found.push(node);
                i = cend;
            },
        }
    }
}

/// The tree of `segments` under `schema`, its root named `root_name`.
pub fn group_segments_indexed<'g>(segments: &[Segment], schema: &'g [GroupDef<'g>], root_name: &'g str) -> (r: SegmentGroupIndexed<'g>)
    ensures
        node_is(r, grouping(segments@, schema@, root_name@)),
{
    let stops: Vec<&'g str> = Vec::new();
    let (end, children, Ghost(g)) = group_run(segments, 0, schema, &stops);
    proof { assert(stops@.map_values(|t: &str| t@) =~= Seq::<Seq<char>>::empty()); }
    let r = SegmentGroupIndexed { definition: root_name, total_span: std::ops::Range { start: 0, end }, children, occurrence_index: 0 };
    proof { assert(node_is(r, grouping(segments@, schema@, root_name@))); }
    r
}

/// Every instance of a subtree, the root first, in document order.
pub open spec fn preorder<'a>(n: SegmentGroupIndexed<'a>) -> Seq<SegmentGroupIndexed<'a>>
    decreases n, 1int,
{
    seq![n] + preorder_list(n.children@)
}

/// Every instance of the subtrees, in order.
pub open spec fn preorder_list<'a>(ns: Seq<SegmentGroupIndexed<'a>>) -> Seq<SegmentGroupIndexed<'a>>
    decreases ns, 0int,
{
    if ns.len() == 0 { Seq::empty() } else { preorder_list(ns.drop_last()) + preorder(ns.last()) }
}

/// The instances of `ns` named `name`, in order.
pub open spec fn named_in<'a>(ns: Seq<SegmentGroupIndexed<'a>>, name: Seq<char>) -> Seq<SegmentGroupIndexed<'a>>
    decreases ns.len(),
{
    if ns.len() == 0 {
        Seq::empty()
    } else if ns.last().definition@ == name {
        named_in(ns.drop_last(), name).push(ns.last())
    } else {
        named_in(ns.drop_last(), name)
    }
}

/// Some child instance covers index `i`.
pub open spec fn covered<'a>(n: SegmentGroupIndexed<'a>, i: int) -> bool {
    exists|c: int| 0 <= c < n.children@.len() && n.children@[c].total_span.start <= i < (#[trigger] n.children@[c]).total_span.end
}

/// The first `m` indices of the range that no child covers, in order.
pub open spec fn direct_prefix<'a>(n: SegmentGroupIndexed<'a>, m: int) -> Seq<usize>
    decreases m,
{
    if m <= 0 {
        Seq::empty()
    } else {
        let prev = direct_prefix(n, m - 1);
        let i = n.total_span.start + m - 1;
        if covered(n, i) { prev } else { prev.push(i as usize) }
    }
}

/// The indices of the range that no child covers, in order.
pub open spec fn direct_indices<'a>(n: SegmentGroupIndexed<'a>) -> Seq<usize> {
    direct_prefix(n, if n.total_span.end > n.total_span.start { n.total_span.end - n.total_span.start } else { 0 })
}

/// The instances referred to.
pub open spec fn derefs<'t, 'a>(v: Seq<&'t SegmentGroupIndexed<'a>>) -> Seq<SegmentGroupIndexed<'a>> {
    v.map_values(|r: &'t SegmentGroupIndexed<'a>| *r)
}

fn collect_preorder<'t, 'a>(n: &'t SegmentGroupIndexed<'a>, out: &mut Vec<&'t SegmentGroupIndexed<'a>>)
    ensures
        derefs(final(out)@) == derefs(old(out)@) + preorder(*n),
    decreases *n,
{
    let ghost before = derefs(out@);
    out.push(n);
    assert(derefs(out@) =~= before.push(*n));
    let ghost after_root = derefs(out@);
    let mut i: usize = 0;
    while i < n.children.len()
        invariant
            i <= n.children@.len(),
            derefs(out@) == after_root + preorder_list(n.children@.take(i as int)),
        decreases n.children@.len() - i,
    {
        proof {
            assert(n.children@.take(i + 1).drop_last() =~= n.children@.take(i as int));
            assert(n.children@.take(i + 1).last() == n.children@[i as int]);
        }
        collect_preorder(&n.children[i], out);
        i = i + 1;
    }
    proof {
        assert(n.children@.take(n.children@.len() as int) =~= n.children@);
        assert(derefs(out@) =~= before + preorder(*n));
    }
}

impl<'a> SegmentGroupIndexed<'a> {
    /// The indices in the range that belong to no child instance, in order.
    pub fn direct_segment_indices(&self) -> (r: Vec<usize>)
        ensures
            r@ == direct_indices(*self),
    {
        let start = self.total_span.start;
        let end = self.total_span.end;
        let mut out: Vec<usize> = Vec::new();
        let mut i = start;
        while i < end
            invariant
                start <= i,
                i <= end || i == start,
                start == self.total_span.start,
                end == self.total_span.end,
                out@ == direct_prefix(*self, i - start),
            decreases end - i,
        {
            let mut is_covered = false;
            let mut c: usize = 0;
            while c < self.children.len()
                invariant
                    c <= self.children@.len(),
                    is_covered == exists|x: int| 0 <= x < c
                        && self.children@[x].total_span.start <= i < (#[trigger] self.children@[x]).total_span.end,
                decreases self.children@.len() - c,
            {
                if self.children[c].total_span.start <= i && i < self.children[c].total_span.end {
                    is_covered = true;
                }
                c = c + 1;
            }
            assert(is_covered == covered(*self, i as int));
            if !is_covered {
                out.push(i);
            }
            i = i + 1;
        }
        out
    }

    /// The segments the instance covers, from the sequence it was built from;
    /// empty when the range does not fit `all`.
    pub fn segments<'s>(&self, all: &'s [Segment]) -> (r: &'s [Segment])
        ensures
            r@ == (if self.total_span.start <= self.total_span.end <= all@.len() {
                all@.subrange(self.total_span.start as int, self.total_span.end as int)
            } else {
                Seq::empty()
            }),
    {
        if self.total_span.start <= self.total_span.end && self.total_span.end <= all.len() {
            vstd::slice::slice_subrange(all, self.total_span.start, self.total_span.end)
        } else {
            let e: &[Segment] = &[];
            assert(e@ =~= Seq::<Segment>::empty());
            e
        }
    }

    /// Every instance of the subtree, this one first, in document order.
    pub fn descendants(&self) -> (r: Vec<&SegmentGroupIndexed<'a>>)
        ensures
            derefs(r@) == preorder(*self),
    {
        let mut out: Vec<&SegmentGroupIndexed<'a>> = Vec::new();
        collect_preorder(self, &mut out);
        assert(derefs(out@) =~= preorder(*self));
        out
    }

    /// Every instance of the subtree named `name`, in document order.
    pub fn find(&self, name: &str) -> (r: Vec<&SegmentGroupIndexed<'a>>)
        ensures
            derefs(r@) == named_in(preorder(*self), name@),
    {
        let all = self.descendants();
        let mut out: Vec<&SegmentGroupIndexed<'a>> = Vec::new();
        let mut i: usize = 0;
        while i < all.len()
            invariant
                i <= all@.len(),
                derefs(out@) == named_in(derefs(all@).take(i as int), name@),
            decreases all@.len() - i,
        {
            proof {
                assert(derefs(all@).take(i + 1).drop_last() =~= derefs(all@).take(i as int));
                assert(derefs(all@).take(i + 1).last() == *all@[i as int]);
            }
            let ghost before = derefs(out@);
            if str_eq(all[i].definition, name) {
                out.push(all[i]);
                assert(derefs(out@) =~= before.push(*all@[i as int]));
            }
            i = i + 1;
        }
        proof { assert(derefs(all@).take(all@.len() as int) =~= derefs(all@)); }
        out
    }
}

/// A depth-first walk over a subtree: a stack of instances still to visit,
/// the next one on top.
pub struct Descendants<'t, 'a> {
    /// The instances still to visit; the last is visited next.
    pub stack: Vec<&'t SegmentGroupIndexed<'a>>,
}

impl<'t, 'a> Descendants<'t, 'a> {
    /// A walk of the subtree of `root`.
    pub fn new(root: &'t SegmentGroupIndexed<'a>) -> (r: Descendants<'t, 'a>)
        ensures
            derefs(r.stack@) == seq![*root],
    {
        let mut stack: Vec<&'t SegmentGroupIndexed<'a>> = Vec::new();
        stack.push(root);
        assert(derefs(stack@) =~= seq![*root]);
        Descendants { stack }
    }

    /// The instance on top of the stack, whose children take its place, the
    /// first child on top; `None` when the walk is over.
    pub fn next(&mut self) -> (r: Option<&'t SegmentGroupIndexed<'a>>)
        ensures
            match r {
                Some(n) => old(self).stack@.len() > 0 && *n == *old(self).stack@.last()
                    && derefs(final(self).stack@) == derefs(old(self).stack@.drop_last()) + n.children@.reverse(),
                None => old(self).stack@.len() == 0 && final(self).stack@.len() == 0,
            },
    {
        match self.stack.pop() {
            None => None,
            Some(node) => {
                let ghost base = derefs(self.stack@);
                let mut i: usize = node.children.len();
                while i > 0
                    invariant
                        i <= node.children@.len(),
                        derefs(self.stack@) == base + node.children@.subrange(i as int, node.children@.len() as int).reverse(),
                    decreases i,
                {
                    let ghost prev = derefs(self.stack@);
                    self.stack.push(&node.children[i - 1]);
                    proof {
                        assert(derefs(self.stack@) =~= prev.push(node.children@[i - 1]));
                        assert(node.children@.subrange(i - 1, node.children@.len() as int).reverse()
                            =~= node.children@.subrange(i as int, node.children@.len() as int).reverse().push(node.children@[i - 1]));
                    }
                    i = i - 1;
                }
                proof { assert(node.children@.subrange(0, node.children@.len() as int) =~= node.children@); }
                Some(node)
            },
        }
    }
}


/// The shape of group instances `ns` read from `tags` under `schema`,
/// within the index range `[lo, hi)`: each lies inside it, they come in
/// order without overlapping, each starts at a segment whose tag triggers
/// its definition (the first of the schema that tag triggers), counts the
/// earlier siblings of its name, and its own instances have the same shape
/// under its definition's children, after its first segment and within it.
pub open spec fn shaped(tags: Seq<Seq<char>>, schema: Seq<GroupDef>, lo: int, hi: int, ns: Seq<GroupNode>) -> bool
    decreases ns,
{
    &&& forall|i: int| 0 <= i < ns.len() ==> lo <= (#[trigger] ns[i]).start < ns[i].end <= hi
    &&& forall|i: int, j: int| 0 <= i < j < ns.len() ==> (#[trigger] ns[i]).end <= (#[trigger] ns[j]).start
    &&& forall|i: int| 0 <= i < ns.len() ==> {
        let k = triggered(schema, tags[(#[trigger] ns[i]).start]);
        &&& 0 <= k < schema.len()
        &&& schema[k].name@ == ns[i].name
        &&& schema[k].trigger@ == tags[ns[i].start]
        &&& ns[i].occurrence == named(ns.take(i), ns[i].name)
        &&& shaped(tags, schema[k].children@, ns[i].start + 1, ns[i].end, ns[i].children)
    }
}

proof fn lemma_triggered_trigger(schema: Seq<GroupDef>, tag: Seq<char>)
    ensures
        triggered(schema, tag) >= 0 ==> triggered(schema, tag) < schema.len() && schema[triggered(schema, tag)].trigger@ == tag,
        triggered(schema, tag) >= -1,
    decreases schema.len(),
{
    if schema.len() > 0 {
        lemma_triggered_trigger(schema.drop_last(), tag);
    }
}

proof fn lemma_shaped_widen(tags: Seq<Seq<char>>, schema: Seq<GroupDef>, lo: int, hi: int, hi2: int, ns: Seq<GroupNode>)
    requires
        shaped(tags, schema, lo, hi, ns),
        hi <= hi2,
    ensures
        shaped(tags, schema, lo, hi2, ns),
{
}

proof fn lemma_shaped_push(tags: Seq<Seq<char>>, schema: Seq<GroupDef>, lo: int, pos: int, found: Seq<GroupNode>, node: GroupNode)
    requires
        shaped(tags, schema, lo, pos, found),
        lo <= pos == node.start < node.end,
        0 <= pos < tags.len(),
        ({
            let k = triggered(schema, tags[node.start]);
            &&& 0 <= k < schema.len()
            &&& schema[k].name@ == node.name
            &&& schema[k].trigger@ == tags[node.start]
            &&& node.occurrence == named(found, node.name)
            &&& shaped(tags, schema[k].children@, node.start + 1, node.end, node.children)
        }),
    ensures
        shaped(tags, schema, lo, node.end, found.push(node)),
{
    let ns = found.push(node);
    assert(ns.take(found.len() as int) =~= found);
    assert forall|i: int| 0 <= i < found.len() implies ns.take(i) =~= found.take(i) by {}
    assert forall|i: int| 0 <= i < ns.len() implies {
        let k = triggered(schema, tags[(#[trigger] ns[i]).start]);
        &&& 0 <= k < schema.len()
        &&& schema[k].name@ == ns[i].name
        &&& schema[k].trigger@ == tags[ns[i].start]
        &&& ns[i].occurrence == named(ns.take(i), ns[i].name)
        &&& shaped(tags, schema[k].children@, ns[i].start + 1, ns[i].end, ns[i].children)
    } by {
        if i < found.len() {
            assert(ns[i] == found[i]);
            assert(ns.take(i) =~= found.take(i));
        }
    }
    assert forall|i: int, j: int| 0 <= i < j < ns.len() implies (#[trigger] ns[i]).end <= (#[trigger] ns[j]).start by {
        if j < found.len() {
            assert(ns[i] == found[i] && ns[j] == found[j]);
        } else {
            assert(ns[i] == found[i]);
        }
    }
}

/// Reading groups keeps their shape: from a position inside the tags, the
/// instances found stay in order and in range, and the run ends between its
/// start and the end of the tags.
proof fn lemma_run_shaped(tags: Seq<Seq<char>>, schema: Seq<GroupDef>, stops: Seq<Seq<char>>, lo: int, pos: int, found: Seq<GroupNode>)
    requires
        0 <= lo <= pos <= tags.len(),
        shaped(tags, schema, lo, pos, found),
    ensures
        pos <= run(tags, schema, stops, pos, found).0 <= tags.len(),
        shaped(tags, schema, lo, run(tags, schema, stops, pos, found).0, run(tags, schema, stops, pos, found).1),
    decreases tags.len() - pos,
{
    if pos < tags.len() {
        let k = triggered(schema, tags[pos]);
        lemma_triggered_trigger(schema, tags[pos]);
        if k < 0 && stops.contains(tags[pos]) {
        } else if k < 0 {
            lemma_shaped_widen(tags, schema, lo, pos, pos + 1, found);
            lemma_run_shaped(tags, schema, stops, lo, pos + 1, found);
        } else {
            let d = schema[k];
            let inner = run(tags, d.children@, stops_with(stops, schema), pos + 1, Seq::empty());
            lemma_run_shaped(tags, d.children@, stops_with(stops, schema), pos + 1, pos + 1, Seq::empty());
            let cend = inner.0;
            let end = if pos < cend <= tags.len() { cend } else { pos + 1 };
            let node = GroupNode { name: d.name@, start: pos, end, occurrence: named(found, d.name@), children: inner.1 };
            lemma_shaped_push(tags, schema, lo, pos, found, node);
            lemma_run_shaped(tags, schema, stops, lo, end, found.push(node));
        }
    }
}

/// The shape of the group tree: the root covers every segment, and every
/// instance under it lies inside its parent, after the parent's first
/// segment; siblings come in order without overlapping; each instance starts
/// at a segment whose tag is its definition's trigger (the first definition
/// that tag triggers among its siblings' definitions); and each counts the
/// earlier siblings of its name.
pub proof fn law_group_tree_shape(segs: Seq<Segment>, schema: Seq<GroupDef>, root: Seq<char>)
    ensures
        grouping(segs, schema, root).start == 0,
        grouping(segs, schema, root).end == segs.len(),
        grouping(segs, schema, root).occurrence == 0,
        shaped(seg_tags(segs), schema, 0, segs.len() as int, grouping(segs, schema, root).children),
{
    let tags = seg_tags(segs);
    lemma_run_shaped(tags, schema, Seq::empty(), 0, 0, Seq::empty());
    lemma_run_to_end(tags, schema, 0, Seq::empty());
}

/// With no stop tags, reading runs to the end of the tags.
proof fn lemma_run_to_end(tags: Seq<Seq<char>>, schema: Seq<GroupDef>, pos: int, found: Seq<GroupNode>)
    requires
        0 <= pos <= tags.len(),
    ensures
        run(tags, schema, Seq::empty(), pos, found).0 == tags.len(),
    decreases tags.len() - pos,
{
    if pos < tags.len() {
        let k = triggered(schema, tags[pos]);
        lemma_triggered_trigger(schema, tags[pos]);
        if k < 0 {
            assert(!Seq::<Seq<char>>::empty().contains(tags[pos]));
            lemma_run_to_end(tags, schema, pos + 1, found);
        } else {
            let d = schema[k];
            let inner = run(tags, d.children@, stops_with(Seq::empty(), schema), pos + 1, Seq::empty());
            lemma_run_shaped(tags, d.children@, stops_with(Seq::empty(), schema), pos + 1, pos + 1, Seq::empty());
            let cend = inner.0;
            let end = if pos < cend <= tags.len() { cend } else { pos + 1 };
            let node = GroupNode { name: d.name@, start: pos, end, occurrence: named(found, d.name@), children: inner.1 };
            lemma_run_to_end(tags, schema, end, found.push(node));
        }
    }
}

} // verus!

//! Devices that are wired to one another, and the ways that lead from one
//! device to another.
//!
//! A line of the text names a device, then a colon and a space, then the
//! devices that its outputs lead to, with single spaces between them. The
//! wiring is taken to have no loops: where a way could go round for ever,
//! there is no answer.

use crate::text::{lines, nonempty_lines, split, split_fields, views};
use std::collections::HashMap;
use vstd::prelude::*;
use vstd::slice::slice_subrange;
use vstd::std_specs::hash::group_hash_axioms;
use vstd::string::StringSliceAdditionalSpecFns;

verus! {

/// The devices of a wiring, each known by its place in the list of names,
/// and for each what its outputs lead to, if the text has a line for it.
pub struct Graph {
    /// The names of the devices, each of them once.
    pub names: Vec<Vec<u8>>,
    /// Where the outputs of each device lead, by the places of the names.
    pub outs: Vec<Option<Vec<usize>>>,
}

/// A wiring as specifications speak of it.
pub struct Net {
    /// The names of the devices.
    pub names: Seq<Seq<u8>>,
    /// Where the outputs of each device lead.
    pub outs: Seq<Option<Seq<usize>>>,
}

impl View for Graph {
    type V = Net;

    open spec fn view(&self) -> Net {
        Net {
            names: Seq::new(self.names@.len(), |i: int| self.names@[i]@),
            outs: Seq::new(
                self.outs@.len(),
                |i: int|
                    match self.outs@[i] {
                        Some(to) => Some(to@),
                        None => None,
                    },
            ),
        }
    }
}

impl Net {
    /// Every device has its entry, and every output leads to a device.
    pub open spec fn wf(self) -> bool {
        &&& self.names.len() == self.outs.len()
        &&& forall|i: int, k: int|
            0 <= i < self.outs.len() && self.outs[i] is Some && 0 <= k < self.outs[i]->0.len()
                ==> (#[trigger] self.outs[i]->0[k]) < self.names.len()
    }
}

/// The place of a name among the first `upto` names, or `upto` if it is not
/// among them.
pub open spec fn place_of(names: Seq<Seq<u8>>, name: Seq<u8>, upto: int) -> int
    decreases upto,
{
    if upto <= 0 {
        0
    } else if place_of(names, name, upto - 1) < upto - 1 {
        place_of(names, name, upto - 1)
    } else if names[upto - 1] == name {
        upto - 1
    } else {
        upto
    }
}

/// The place of a name is a place or the number of names.
pub proof fn lemma_place_of(names: Seq<Seq<u8>>, name: Seq<u8>, upto: int)
    requires
        0 <= upto <= names.len(),
    ensures
        0 <= place_of(names, name, upto) <= upto,
        place_of(names, name, upto) < upto ==> names[place_of(names, name, upto)] == name,
    decreases upto,
{
    if upto > 0 {
        lemma_place_of(names, name, upto - 1);
    }
}

/// Whether two names are the same.
pub fn same_name(a: &[u8], b: &[u8]) -> (same: bool)
    ensures
        same == (a@ == b@),
{
    if a.len() != b.len() {
        return false;
    }
    let mut i: usize = 0;
    while i < a.len()
        invariant
            i <= a@.len(),
            a@.len() == b@.len(),
            forall|j: int| 0 <= j < i ==> a@[j] == b@[j],
        decreases a@.len() - i,
    {
        if a[i] != b[i] {
            return false;
        }
        i += 1;
    }
    assert(a@ =~= b@);
    true
}

impl Graph {
    /// The place of a name, or the number of names if there is no such
    /// device.
    pub fn find(&self, name: &[u8]) -> (place: usize)
        ensures
            place == place_of(self@.names, name@, self@.names.len() as int),
            place <= self@.names.len(),
    {
        let mut place: usize = 0;
        while place < self.names.len()
            invariant
                place <= self.names@.len(),
                place == place_of(self@.names, name@, place as int),
            decreases self.names@.len() - place,
        {
            assert(self@.names[place as int] == self.names@[place as int]@);
            if same_name(self.names[place].as_slice(), name) {
                proof {
                    lemma_place_stays(self@.names, name@, place as int, self@.names.len() as int);
                }
                return place;
            }
            place += 1;
        }
        place
    }
}

/// Once a name is found, later names do not change its place.
pub proof fn lemma_place_stays(names: Seq<Seq<u8>>, name: Seq<u8>, place: int, upto: int)
    requires
        0 <= place < upto <= names.len(),
        place_of(names, name, place) == place,
        names[place] == name,
    ensures
        place_of(names, name, upto) == place,
    decreases upto - place,
{
    if place + 1 < upto {
        lemma_place_stays(names, name, place, upto - 1);
    }
}

/// The wiring with one more name, if it was not known, and the place of the
/// name.
pub open spec fn interned(net: Net, name: Seq<u8>) -> (Net, int) {
    let place = place_of(net.names, name, net.names.len() as int);
    if place < net.names.len() {
        (net, place)
    } else {
        (Net { names: net.names.push(name), outs: net.outs.push(None) }, place)
    }
}

/// The wiring after the names of some outputs have been made known, and
/// the places of those names.
pub open spec fn interned_all(net: Net, words: Seq<Seq<u8>>) -> (Net, Seq<usize>)
    decreases words.len(),
{
    if words.len() == 0 {
        (net, Seq::empty())
    } else {
        let before = interned_all(net, words.drop_last());
        let last = interned(before.0, words.last());
        (last.0, before.1.push(last.1 as usize))
    }
}

/// Where a colon with a space behind it first stands at or after `from`, or
/// the length of the line.
pub open spec fn colon_at(line: Seq<u8>, from: int) -> int
    decreases line.len() - from,
{
    if from < 0 || from + 1 >= line.len() {
        line.len() as int
    } else if line[from] == 58 && line[from + 1] == 32 {
        from
    } else {
        colon_at(line, from + 1)
    }
}

/// The wiring with one more line: the device before the colon leads to the
/// devices that are named behind it. There is none if the line has no colon
/// with a space behind it.
pub open spec fn read_line(net: Net, line: Seq<u8>) -> Option<Net> {
    let colon = colon_at(line, 0);
    if colon >= line.len() {
        None
    } else {
        let from = interned(net, line.take(colon));
        let to = interned_all(from.0, split(line.skip(colon + 2), 32));
        Some(Net { names: to.0.names, outs: to.0.outs.update(from.1, Some(to.1)) })
    }
}

/// The wiring that the lines describe.
pub open spec fn read_lines(found: Seq<Seq<u8>>) -> Option<Net>
    decreases found.len(),
{
    if found.len() == 0 {
        Some(Net { names: Seq::empty(), outs: Seq::empty() })
    } else {
        match read_lines(found.drop_last()) {
            Some(net) => read_line(net, found.last()),
            None => None,
        }
    }
}

/// Once a line cannot be read, nothing comes of the text.
pub proof fn lemma_read_fails(found: Seq<Seq<u8>>, upto: int)
    requires
        0 <= upto <= found.len(),
        read_lines(found.take(upto)) is None,
    ensures
        read_lines(found) is None,
    decreases found.len() - upto,
{
    if upto < found.len() {
        let longer = found.take(upto + 1);
        assert(longer.drop_last() =~= found.take(upto));
        lemma_read_fails(found, upto + 1);
    } else {
        assert(found.take(upto) =~= found);
    }
}

/// What a text reads as: the wiring that its lines describe.
pub open spec fn spec_parse_text(text: Seq<u8>) -> Option<Net> {
    read_lines(nonempty_lines(text))
}

/// A wiring stays well formed when a name is made known.
pub proof fn lemma_interned_wf(net: Net, name: Seq<u8>)
    requires
        net.wf(),
    ensures
        interned(net, name).0.wf(),
        0 <= interned(net, name).1 < interned(net, name).0.names.len(),
        interned(net, name).0.names.len() >= net.names.len(),
{
    lemma_place_of(net.names, name, net.names.len() as int);
    let after = interned(net, name).0;
    assert forall|i: int, k: int|
        0 <= i < after.outs.len() && after.outs[i] is Some && 0 <= k < after.outs[i]->0.len()
        implies (#[trigger] after.outs[i]->0[k]) < after.names.len() by {
        if i < net.outs.len() {
            assert(after.outs[i] == net.outs[i]);
            assert(net.outs[i]->0[k] < net.names.len());
        }
    }
}

impl Graph {
    /// Makes a name known and gives its place.
    pub fn intern(&mut self, name: &[u8]) -> (place: usize)
        requires
            old(self)@.wf(),
        ensures
            (final(self)@, place as int) == interned(old(self)@, name@),
            final(self)@.wf(),
            place < final(self)@.names.len(),
    {
        let place = self.find(name);
        proof {
            lemma_interned_wf(self@, name@);
        }
        let ghost before = self@;
        if place == self.names.len() {
            let mut copy: Vec<u8> = Vec::new();
            let mut i: usize = 0;
            while i < name.len()
                invariant
                    i <= name@.len(),
                    copy@ == name@.take(i as int),
                decreases name@.len() - i,
            {
                copy.push(name[i]);
                assert(name@.take(i + 1) =~= name@.take(i as int).push(name@[i as int]));
                i += 1;
            }
            assert(name@.take(name@.len() as int) =~= name@);
            self.names.push(copy);
            self.outs.push(None);
            assert(self@.names =~= before.names.push(name@));
            assert(self@.outs =~= before.outs.push(None));
        }
        place
    }
}

/// Reads one line into the wiring, or says that it cannot be read; the
/// wiring is then as it was.
pub fn parse_line(graph: &mut Graph, line: &[u8]) -> (read: bool)
    requires
        old(graph)@.wf(),
    ensures
        final(graph)@.wf(),
        read ==> read_line(old(graph)@, line@) == Some(final(graph)@),
        !read ==> read_line(old(graph)@, line@) is None && final(graph)@ == old(graph)@,
{
    let mut colon: usize = 0;
    let mut searching = true;
    while searching
        invariant
            colon <= line@.len(),
            searching ==> colon_at(line@, 0) == colon_at(line@, colon as int),
            !searching ==> colon_at(line@, 0) == colon,
            !searching && colon < line@.len() ==> colon + 1 < line@.len(),
        decreases
                if searching {
                    line@.len() - colon + 1
                } else {
                    0
                },
    {
        if line.len() - colon < 2 {
            colon = line.len();
            searching = false;
        } else if line[colon] == 58 && line[colon + 1] == 32 {
            searching = false;
        } else {
            colon += 1;
        }
    }
    if colon >= line.len() {
        return false;
    }
    let ghost before = graph@;
    let name = slice_subrange(line, 0, colon);
    assert(name@ =~= line@.take(colon as int));
    let from = graph.intern(name);
    let ghost named = graph@;
    let rest = slice_subrange(line, colon + 2, line.len());
    assert(rest@ =~= line@.skip(colon + 2));
    let words = split_fields(rest, 32);
    let ghost parts = split(rest@, 32);
    let mut to: Vec<usize> = Vec::new();
    let mut k: usize = 0;
    assert(parts.take(0) =~= Seq::<Seq<u8>>::empty());
    while k < words.len()
        invariant
            k <= words@.len(),
            views(words@) == parts,
            graph@.wf(),
            from < graph@.names.len(),
            (graph@, to@) == interned_all(named, parts.take(k as int)),
            forall|j: int| 0 <= j < to@.len() ==> #[trigger] to@[j] < graph@.names.len(),
        decreases words@.len() - k,
    {
        proof {
            let longer = parts.take(k + 1);
            assert(longer.drop_last() =~= parts.take(k as int));
            assert(longer.last() == words@[k as int]@);
            lemma_interned_wf(graph@, words@[k as int]@);
        }
        let place = graph.intern(words[k]);
        to.push(place);
        k += 1;
    }
    assert(parts.take(parts.len() as int) =~= parts);
    let ghost wired = graph@;
    let ghost targets = to@;
    graph.outs.set(from, Some(to));
    proof {
        assert(graph@.names =~= wired.names);
        assert(graph@.outs =~= wired.outs.update(from as int, Some(targets)));
        assert forall|i: int, k: int|
            0 <= i < graph@.outs.len() && graph@.outs[i] is Some && 0 <= k
                < graph@.outs[i]->0.len() implies (#[trigger] graph@.outs[i]->0[k])
            < graph@.names.len() by {
            if i != from {
                assert(graph@.outs[i] == wired.outs[i]);
                assert(wired.outs[i]->0[k] < wired.names.len());
            }
        }
    }
    true
}

/// Reads the wiring that a text describes.
pub fn parse_text(text: &[u8]) -> (graph: Option<Graph>)
    ensures
        graph is Some <==> spec_parse_text(text@) is Some,
        graph matches Some(read) ==> Some(read@) == spec_parse_text(text@) && read@.wf(),
{
    let found = lines(text);
    let ghost all = nonempty_lines(text@);
    let mut graph = Graph { names: Vec::new(), outs: Vec::new() };
    let mut i: usize = 0;
    assert(all.take(0) =~= Seq::<Seq<u8>>::empty());
    assert(graph@.names =~= Seq::<Seq<u8>>::empty());
    assert(graph@.outs =~= Seq::<Option<Seq<usize>>>::empty());
    while i < found.len()
        invariant
            i <= found@.len(),
            views(found@) == all,
            all == nonempty_lines(text@),
            graph@.wf(),
            read_lines(all.take(i as int)) == Some(graph@),
        decreases found@.len() - i,
    {
        proof {
            let longer = all.take(i + 1);
            assert(longer.drop_last() =~= all.take(i as int));
            assert(longer.last() == found@[i as int]@);
        }
        if !parse_line(&mut graph, found[i]) {
            proof {
                lemma_read_fails(all, i + 1);
            }
            return None;
        }
        i += 1;
    }
    assert(all.take(all.len() as int) =~= all);
    Some(graph)
}

// ---------------------------------------------------------------------------
// Counting the ways one by one
// ---------------------------------------------------------------------------

/// Those of the outputs that do not lead to the sink.
pub open spec fn onward(to: Seq<usize>, sink: int) -> Seq<usize>
    decreases to.len(),
{
    if to.len() == 0 {
        Seq::empty()
    } else if to.last() == sink {
        onward(to.drop_last(), sink)
    } else {
        onward(to.drop_last(), sink).push(to.last())
    }
}

/// How many of the outputs lead to the sink.
pub open spec fn arrivals(to: Seq<usize>, sink: int) -> int
    decreases to.len(),
{
    if to.len() == 0 {
        0
    } else {
        arrivals(to.drop_last(), sink) + if to.last() == sink {
            1int
        } else {
            0int
        }
    }
}

/// The ends of all ways of some length, and how many ways have arrived at
/// the sink.
pub struct Front {
    /// Where the ways that have not arrived end, one entry for every way.
    pub ends: Seq<usize>,
    /// How many ways have arrived.
    pub arrived: i64,
}

/// The front after the ways that end in `ends` have gone one step further,
/// added to `front`. There is none if one of them ends in a device without
/// outputs of its own, or if the ways that have arrived are too many to
/// count.
pub open spec fn advance(net: Net, sink: int, front: Front, ends: Seq<usize>) -> Option<Front>
    decreases ends.len(),
{
    if ends.len() == 0 {
        Some(front)
    } else {
        match (advance(net, sink, front, ends.drop_last()), net.outs[ends.last() as int]) {
            (Some(before), Some(to)) => if before.arrived + arrivals(to, sink) <= i64::MAX {
                Some(
                    Front {
                        ends: before.ends + onward(to, sink),
                        arrived: (before.arrived + arrivals(to, sink)) as i64,
                    },
                )
            } else {
                None
            },
            _ => None,
        }
    }
}

/// The front after `steps` steps from the source.
pub open spec fn front_after(net: Net, source: int, sink: int, steps: int) -> Option<Front>
    decreases steps,
{
    if steps <= 0 {
        Some(Front { ends: seq![source as usize], arrived: 0 })
    } else {
        match front_after(net, source, sink, steps - 1) {
            Some(front) => advance(
                net,
                sink,
                Front { ends: Seq::empty(), arrived: front.arrived },
                front.ends,
            ),
            None => None,
        }
    }
}

/// How many ways lead from the source to the sink, going from device to
/// device along the outputs and ending where they first come to the sink.
/// There is no answer if the source is not a device, if a way ends in a device
/// without outputs of its own, if after as many steps as there are devices some
/// way has still not ended, or if no way arrives.
pub open spec fn spec_count_paths(net: Net, source: Seq<u8>, sink: Seq<u8>) -> Option<i64> {
    let n = net.names.len() as int;
    let from = place_of(net.names, source, n);
    let to = place_of(net.names, sink, n);
    if from >= n {
        None
    } else {
        match front_after(net, from, to, n) {
            Some(front) => if front.ends.len() == 0 && front.arrived > 0 {
                Some(front.arrived)
            } else {
                None
            },
            None => None,
        }
    }
}

/// A front without ends stays as it is.
pub proof fn lemma_front_settled(net: Net, source: int, sink: int, steps: int, later: int)
    requires
        0 <= steps <= later,
        front_after(net, source, sink, steps) is Some,
        front_after(net, source, sink, steps)->0.ends.len() == 0,
    ensures
        front_after(net, source, sink, later) == front_after(net, source, sink, steps),
    decreases later - steps,
{
    if steps < later {
        lemma_front_settled(net, source, sink, steps, later - 1);
        assert(front_after(net, source, sink, steps)->0.ends =~= Seq::<usize>::empty());
    }
}

/// A front that failed stays failed.
pub proof fn lemma_front_failed(net: Net, source: int, sink: int, steps: int, later: int)
    requires
        0 <= steps <= later,
        front_after(net, source, sink, steps) is None,
    ensures
        front_after(net, source, sink, later) is None,
    decreases later - steps,
{
    if steps < later {
        lemma_front_failed(net, source, sink, steps, later - 1);
    }
}

/// Once the ways that end in some devices cannot go on, neither can those
/// that end in more devices.
pub proof fn lemma_advance_failed(net: Net, sink: int, front: Front, ends: Seq<usize>, upto: int)
    requires
        0 <= upto <= ends.len(),
        advance(net, sink, front, ends.take(upto)) is None,
    ensures
        advance(net, sink, front, ends) is None,
    decreases ends.len() - upto,
{
    if upto < ends.len() {
        let longer = ends.take(upto + 1);
        assert(longer.drop_last() =~= ends.take(upto));
        lemma_advance_failed(net, sink, front, ends, upto + 1);
    } else {
        assert(ends.take(upto) =~= ends);
    }
}

/// Takes the ways that end in `list` one step further.
pub fn step(graph: &Graph, sink: usize, arrived: i64, list: &Vec<usize>) -> (next: Option<
    (Vec<usize>, i64),
>)
    requires
        graph@.wf(),
        0 <= arrived,
        forall|j: int| 0 <= j < list@.len() ==> #[trigger] list@[j] < graph@.names.len(),
    ensures
        next matches Some(pair) ==> 0 <= pair.1 && advance(
            graph@,
            sink as int,
            Front { ends: Seq::empty(), arrived },
            list@,
        ) == Some(Front { ends: pair.0@, arrived: pair.1 }) && (forall|j: int|
            0 <= j < pair.0@.len() ==> #[trigger] pair.0@[j] < graph@.names.len()),
        next is None ==> advance(
            graph@,
            sink as int,
            Front { ends: Seq::empty(), arrived },
            list@,
        ) is None,
{
    let ghost start = Front { ends: Seq::<usize>::empty(), arrived };
    let mut ends: Vec<usize> = Vec::new();
    let mut count: i64 = arrived;
    let mut i: usize = 0;
    assert(list@.take(0) =~= Seq::<usize>::empty());
    while i < list.len()
        invariant
            i <= list@.len(),
            graph@.wf(),
            0 <= count,
            start == (Front { ends: Seq::<usize>::empty(), arrived }),
            forall|j: int| 0 <= j < list@.len() ==> #[trigger] list@[j] < graph@.names.len(),
            forall|j: int| 0 <= j < ends@.len() ==> #[trigger] ends@[j] < graph@.names.len(),
            advance(graph@, sink as int, start, list@.take(i as int)) == Some(
                Front { ends: ends@, arrived: count },
            ),
        decreases list@.len() - i,
    {
        let from = list[i];
        proof {
            let longer = list@.take(i + 1);
            assert(longer.drop_last() =~= list@.take(i as int));
            assert(longer.last() == from);
            assert(list@[i as int] < graph@.names.len());
        }
        match &graph.outs[from] {
            Some(to) => {
                assert(graph@.outs[from as int] == Some(to@));
                let ghost before = ends@;
                let mut hits: usize = 0;
                let mut k: usize = 0;
                assert(to@.take(0) =~= Seq::<usize>::empty());
                while k < to.len()
                    invariant
                        k <= to@.len(),
                        graph@.wf(),
                        from < graph@.outs.len(),
                        graph@.outs[from as int] == Some(to@),
                        hits == arrivals(to@.take(k as int), sink as int),
                        hits <= k,
                        ends@ == before + onward(to@.take(k as int), sink as int),
                        forall|j: int|
                            0 <= j < ends@.len() ==> #[trigger] ends@[j] < graph@.names.len(),
                    decreases to@.len() - k,
                {
                    proof {
                        let longer = to@.take(k + 1);
                        assert(longer.drop_last() =~= to@.take(k as int));
                        assert(longer.last() == to@[k as int]);
                        assert(graph@.outs[from as int]->0[k as int] < graph@.names.len());
                    }
                    if to[k] == sink {
                        hits += 1;
                    } else {
                        ends.push(to[k]);
                        assert(ends@ =~= before + onward(to@.take(k + 1), sink as int));
                    }
                    k += 1;
                }
                assert(to@.take(to@.len() as int) =~= to@);
                let wide: u64 = hits as u64;
                if wide > 0x7fff_ffff_ffff_ffff || count > i64::MAX - wide as i64 {
                    proof {
                        let longer = list@.take(i + 1);
                        assert(longer.drop_last() =~= list@.take(i as int));
                        assert(longer.last() == from);
                        assert(count + arrivals(to@, sink as int) > i64::MAX);
                        assert(advance(graph@, sink as int, start, longer) is None);
                        lemma_advance_failed(graph@, sink as int, start, list@, i + 1);
                    }
                    return None;
                }
                count += wide as i64;
            },
            None => {
                proof {
                    assert(graph@.outs[from as int] is None);
                    lemma_advance_failed(graph@, sink as int, start, list@, i + 1);
                }
                return None;
            },
        }
        i += 1;
    }
    assert(list@.take(list@.len() as int) =~= list@);
    Some((ends, count))
}

/// Counts the ways that lead from the source to the sink, going along
/// every way by itself.
pub fn try_count_paths(graph: &Graph, label_source: &[u8], label_sink: &[u8]) -> (count: Option<
    i64,
>)
    requires
        graph@.wf(),
    ensures
        count == spec_count_paths(graph@, label_source@, label_sink@),
{
    let n = graph.names.len();
    let source = graph.find(label_source);
    let sink = graph.find(label_sink);
    if source >= n {
        return None;
    }
    let mut nodes_from: Vec<usize> = Vec::new();
    nodes_from.push(source);
    let mut arrived: i64 = 0;
    let mut steps: usize = 0;
    assert(nodes_from@ =~= seq![source]);
    while steps < n && nodes_from.len() > 0
        invariant
            steps <= n,
            n == graph@.names.len(),
            graph@.wf(),
            source == place_of(graph@.names, label_source@, n as int),
            sink == place_of(graph@.names, label_sink@, n as int),
            source < n,
            0 <= arrived,
            forall|j: int|
                0 <= j < nodes_from@.len() ==> #[trigger] nodes_from@[j] < graph@.names.len(),
            front_after(graph@, source as int, sink as int, steps as int) == Some(
                Front { ends: nodes_from@, arrived },
            ),
        decreases n - steps,
    {
        match step(graph, sink, arrived, &nodes_from) {
            Some(pair) => {
                nodes_from = pair.0;
                arrived = pair.1;
            },
            None => {
                proof {
                    lemma_front_failed(graph@, source as int, sink as int, steps + 1, n as int);
                }
                return None;
            },
        }
        steps += 1;
    }
    if nodes_from.len() > 0 {
        return None;
    }
    proof {
        lemma_front_settled(graph@, source as int, sink as int, steps as int, n as int);
    }
    if arrived > 0 {
        Some(arrived)
    } else {
        None
    }
}

/// How many ways lead from one device to another.
pub fn count_paths(graph: &Graph, label_source: &str, label_sink: &str) -> (count: i64)
    requires
        graph@.wf(),
        spec_count_paths(graph@, label_source.spec_bytes(), label_sink.spec_bytes()) is Some,
    ensures
        Some(count) == spec_count_paths(
            graph@,
            label_source.spec_bytes(),
            label_sink.spec_bytes(),
        ),
{
    try_count_paths(graph, label_source.as_bytes(), label_sink.as_bytes()).unwrap()
}

/// The answer to the first part: how many ways lead from `you` to `out`.
pub open spec fn spec_answer_1(text: Seq<u8>) -> Option<i64> {
    match spec_parse_text(text) {
        Some(net) => spec_count_paths(net, "you".spec_bytes(), "out".spec_bytes()),
        None => None,
    }
}

/// Counts the ways that lead from `you` to `out`.
pub fn try_parse_1(text: &[u8]) -> (answer: Option<i64>)
    ensures
        answer == spec_answer_1(text@),
{
    match parse_text(text) {
        Some(graph) => try_count_paths(&graph, "you".as_bytes(), "out".as_bytes()),
        None => None,
    }
}

/// How many ways lead from `you` to `out` in the wiring that `text`
/// describes.
pub fn parse_1(text: &str) -> (answer: i64)
    requires
        spec_answer_1(text.spec_bytes()) is Some,
    ensures
        Some(answer) == spec_answer_1(text.spec_bytes()),
{
    try_parse_1(text.as_bytes()).unwrap()
}

// ---------------------------------------------------------------------------
// Counting the ways device by device
// ---------------------------------------------------------------------------

/// How many ways a map of counts holds for a device: nothing where it has no
/// entry for it.
pub open spec fn held(counts: Map<usize, i64>, place: usize) -> int {
    if counts.contains_key(place) {
        counts[place] as int
    } else {
        0
    }
}

/// Whether `n` more ways for a device can still be counted.
pub open spec fn has_room(counts: Map<usize, i64>, place: usize, n: i64) -> bool {
    i64::MIN <= held(counts, place) + n <= i64::MAX
}

/// The counts after `n` more ways for a device.
pub open spec fn raised(counts: Map<usize, i64>, place: usize, n: i64) -> Map<usize, i64> {
    counts.insert(place, (held(counts, place) + n) as i64)
}

/// Numbers of ways, by the places of the devices that they belong to.
pub struct CountMap {
    /// The number of ways for each device that has any.
    pub h: HashMap<usize, i64>,
}

impl View for CountMap {
    type V = Map<usize, i64>;

    open spec fn view(&self) -> Map<usize, i64> {
        self.h@
    }
}

impl CountMap {
    /// Counts without any entry.
    pub fn new() -> (counts: CountMap)
        ensures
            counts@ == Map::<usize, i64>::empty(),
    {
        CountMap { h: HashMap::new() }
    }

    /// Whether `n` more ways for a device can still be counted.
    pub fn fits(&self, place: usize, n: i64) -> (room: bool)
        ensures
            room == has_room(self@, place, n),
    {
        broadcast use group_hash_axioms;

        match self.h.get(&place) {
            Some(count) => {
                let sum: Option<i64> = count.checked_add(n);
                sum.is_some()
            },
            None => true,
        }
    }

    /// Adds `n` ways for a device.
    pub fn inc(&mut self, place: usize, n: i64)
        requires
            has_room(old(self)@, place, n),
        ensures
            final(self)@ == raised(old(self)@, place, n),
    {
        broadcast use group_hash_axioms;

        let sum: i64 = match self.h.get(&place) {
            Some(count) => *count + n,
            None => n,
        };
        self.h.insert(place, sum);
    }
}

/// The counts of all ways so far, and the counts of the ways of the next
/// length that have not arrived at the sink.
pub struct Spread {
    /// How many ways end in each device, whatever their length.
    pub counts: Map<usize, i64>,
    /// How many ways of the next length end in each device but the sink.
    pub next: Map<usize, i64>,
}

/// The counts after `n` ways have gone on along each of the outputs `to`.
/// There are none where a count would grow too large.
pub open spec fn feed(spread: Spread, to: Seq<usize>, n: i64, sink: int) -> Option<Spread>
    decreases to.len(),
{
    if to.len() == 0 {
        Some(spread)
    } else {
        match feed(spread, to.drop_last(), n, sink) {
            Some(before) => {
                let place = to.last();
                if !has_room(before.counts, place, n) {
                    None
                } else if place == sink {
                    Some(
                        Spread {
                            counts: raised(before.counts, place, n),
                            next: before.next,
                        },
                    )
                } else if !has_room(before.next, place, n) {
                    None
                } else {
                    Some(
                        Spread {
                            counts: raised(before.counts, place, n),
                            next: raised(before.next, place, n),
                        },
                    )
                }
            },
            None => None,
        }
    }
}

/// The counts after the ways that end in the first `upto` devices, as many
/// as `current` says, have gone one step further. Ways that end in a device
/// without outputs of its own go no further.
pub open spec fn spread(
    net: Net,
    sink: int,
    current: Map<usize, i64>,
    start: Spread,
    upto: int,
) -> Option<Spread>
    decreases upto,
{
    if upto <= 0 {
        Some(start)
    } else {
        match spread(net, sink, current, start, upto - 1) {
            Some(before) => if current.contains_key((upto - 1) as usize) && net.outs[upto
                - 1] is Some {
                feed(before, net.outs[upto - 1]->0, current[(upto - 1) as usize], sink)
            } else {
                Some(before)
            },
            None => None,
        }
    }
}

/// The counts of all ways up to some length, and the counts of the ways of
/// that length that can still go on.
pub struct Wave {
    /// How many ways end in each device, whatever their length.
    pub counts: Map<usize, i64>,
    /// How many ways of the greatest length end in each device but the sink.
    pub current: Map<usize, i64>,
}

/// The counts after `steps` steps from the source.
pub open spec fn wave_after(net: Net, source: int, sink: int, steps: int) -> Option<Wave>
    decreases steps,
{
    if steps <= 0 {
        Some(
            Wave {
                counts: Map::empty(),
                current: Map::<usize, i64>::empty().insert(source as usize, 1i64),
            },
        )
    } else {
        match wave_after(net, source, sink, steps - 1) {
            Some(wave) => match spread(
                net,
                sink,
                wave.current,
                Spread { counts: wave.counts, next: Map::empty() },
                net.names.len() as int,
            ) {
                Some(after) => Some(Wave { counts: after.counts, current: after.next }),
                None => None,
            },
            None => None,
        }
    }
}

/// How many ways lead from the source to the sink, counted for all ways of
/// one length at once. Ways that end in a device without outputs of its own
/// are left aside. There is no answer if the source is not a device, if a
/// count grows too large, if after as many steps as there are devices some
/// way has still not ended, or if no way arrives.
pub open spec fn spec_count_paths2(net: Net, source: Seq<u8>, sink: Seq<u8>) -> Option<i64> {
    let n = net.names.len() as int;
    let from = place_of(net.names, source, n);
    let to = place_of(net.names, sink, n);
    if from >= n {
        None
    } else {
        match wave_after(net, from, to, n) {
            Some(wave) => if wave.current.is_empty() && wave.counts.contains_key(to as usize) {
                Some(wave.counts[to as usize])
            } else {
                None
            },
            None => None,
        }
    }
}

/// Where no way can go on, a step changes nothing.
pub proof fn lemma_spread_nothing(net: Net, sink: int, current: Map<usize, i64>, start: Spread, upto: int)
    requires
        current.is_empty(),
    ensures
        spread(net, sink, current, start, upto) == Some(start),
    decreases upto,
{
    if upto > 0 {
        lemma_spread_nothing(net, sink, current, start, upto - 1);
    }
}

/// Counts in which no way can go on stay as they are.
pub proof fn lemma_wave_settled(net: Net, source: int, sink: int, steps: int, later: int)
    requires
        0 <= steps <= later,
        wave_after(net, source, sink, steps) is Some,
        wave_after(net, source, sink, steps)->0.current.is_empty(),
    ensures
        wave_after(net, source, sink, later) == wave_after(net, source, sink, steps),
    decreases later - steps,
{
    if steps < later {
        lemma_wave_settled(net, source, sink, steps, later - 1);
        let wave = wave_after(net, source, sink, steps)->0;
        let start = Spread { counts: wave.counts, next: Map::empty() };
        lemma_spread_nothing(net, sink, wave.current, start, net.names.len() as int);
        assert(wave.current =~= Map::<usize, i64>::empty());
    }
}

/// Counts that failed stay failed.
pub proof fn lemma_wave_failed(net: Net, source: int, sink: int, steps: int, later: int)
    requires
        0 <= steps <= later,
        wave_after(net, source, sink, steps) is None,
    ensures
        wave_after(net, source, sink, later) is None,
    decreases later - steps,
{
    if steps < later {
        lemma_wave_failed(net, source, sink, steps, later - 1);
    }
}

/// A step that failed at some device fails as a whole.
pub proof fn lemma_spread_failed(
    net: Net,
    sink: int,
    current: Map<usize, i64>,
    start: Spread,
    upto: int,
    later: int,
)
    requires
        0 <= upto <= later,
        spread(net, sink, current, start, upto) is None,
    ensures
        spread(net, sink, current, start, later) is None,
    decreases later - upto,
{
    if upto < later {
        lemma_spread_failed(net, sink, current, start, upto, later - 1);
    }
}

/// Once a count has grown too large along some outputs, it has along more.
pub proof fn lemma_feed_failed(spread: Spread, to: Seq<usize>, n: i64, sink: int, upto: int)
    requires
        0 <= upto <= to.len(),
        feed(spread, to.take(upto), n, sink) is None,
    ensures
        feed(spread, to, n, sink) is None,
    decreases to.len() - upto,
{
    if upto < to.len() {
        let longer = to.take(upto + 1);
        assert(longer.drop_last() =~= to.take(upto));
        lemma_feed_failed(spread, to, n, sink, upto + 1);
    } else {
        assert(to.take(upto) =~= to);
    }
}

/// Lets `n` ways go on along each of the outputs `to`. Gives `false`, with
/// counts that mean nothing, where a count would grow too large.
pub fn feed_outputs(
    counts: &mut CountMap,
    nodes_to: &mut CountMap,
    to: &Vec<usize>,
    n: i64,
    sink: usize,
) -> (done: bool)
    ensures
        done ==> feed(Spread { counts: old(counts)@, next: old(nodes_to)@ }, to@, n, sink as int)
            == Some(Spread { counts: final(counts)@, next: final(nodes_to)@ }),
        !done ==> feed(
            Spread { counts: old(counts)@, next: old(nodes_to)@ },
            to@,
            n,
            sink as int,
        ) is None,
{
    let ghost start = Spread { counts: counts@, next: nodes_to@ };
    let mut k: usize = 0;
    assert(to@.take(0) =~= Seq::<usize>::empty());
    while k < to.len()
        invariant
            k <= to@.len(),
            start == (Spread { counts: old(counts)@, next: old(nodes_to)@ }),
            feed(start, to@.take(k as int), n, sink as int) == Some(
                Spread { counts: counts@, next: nodes_to@ },
            ),
        decreases to@.len() - k,
    {
        let place = to[k];
        proof {
            let longer = to@.take(k + 1);
            assert(longer.drop_last() =~= to@.take(k as int));
            assert(longer.last() == place);
        }
        if !counts.fits(place, n) {
            proof {
                lemma_feed_failed(start, to@, n, sink as int, k + 1);
            }
            return false;
        }
        if place != sink {
            if !nodes_to.fits(place, n) {
                proof {
                    lemma_feed_failed(start, to@, n, sink as int, k + 1);
                }
                return false;
            }
            nodes_to.inc(place, n);
        }
        counts.inc(place, n);
        k += 1;
    }
    assert(to@.take(to@.len() as int) =~= to@);
    true
}

/// Counts the ways that lead from the source to the sink, all ways of one
/// length at once.
pub fn try_count_paths2(graph: &Graph, label_source: &[u8], label_sink: &[u8]) -> (count: Option<
    i64,
>)
    requires
        graph@.wf(),
    ensures
        count == spec_count_paths2(graph@, label_source@, label_sink@),
{
    broadcast use group_hash_axioms;

    let n = graph.names.len();
    let source = graph.find(label_source);
    let sink = graph.find(label_sink);
    if source >= n {
        return None;
    }
    let mut counts = CountMap::new();
    let mut nodes_from = CountMap::new();
    nodes_from.inc(source, 1);
    let mut steps: usize = 0;
    while steps < n && !nodes_from.h.is_empty()
        invariant
            steps <= n,
            n == graph@.names.len(),
            graph@.wf(),
            source == place_of(graph@.names, label_source@, n as int),
            sink == place_of(graph@.names, label_sink@, n as int),
            source < n,
            wave_after(graph@, source as int, sink as int, steps as int) == Some(
                Wave { counts: counts@, current: nodes_from@ },
            ),
        decreases n - steps,
    {
        let ghost start = Spread { counts: counts@, next: Map::empty() };
        let mut nodes_to = CountMap::new();
        let mut from: usize = 0;
        while from < n
            invariant
                from <= n,
                steps < n,
                n == graph@.names.len(),
                graph@.wf(),
                source == place_of(graph@.names, label_source@, n as int),
                sink == place_of(graph@.names, label_sink@, n as int),
                source < n,
                start.next == Map::<usize, i64>::empty(),
                wave_after(graph@, source as int, sink as int, steps as int) == Some(
                    Wave { counts: start.counts, current: nodes_from@ },
                ),
                spread(graph@, sink as int, nodes_from@, start, from as int) == Some(
                    Spread { counts: counts@, next: nodes_to@ },
                ),
            decreases n - from,
        {
            let amount: Option<i64> = match nodes_from.h.get(&from) {
                Some(held) => Some(*held),
                None => None,
            };
            let done: bool = match (amount, &graph.outs[from]) {
                (Some(ways), Some(to)) => {
                    assert(graph@.outs[from as int] == Some(to@));
                    feed_outputs(&mut counts, &mut nodes_to, to, ways, sink)
                },
                _ => {
                    assert(graph@.outs[from as int] is None <==> graph.outs@[from as int] is None);
                    true
                },
            };
            if !done {
                proof {
                    lemma_spread_failed(
                        graph@,
                        sink as int,
                        nodes_from@,
                        start,
                        from + 1,
                        n as int,
                    );
                    lemma_wave_failed(graph@, source as int, sink as int, steps + 1, n as int);
                }
                return None;
            }
            from += 1;
        }
        nodes_from = nodes_to;
        steps += 1;
    }
    if !nodes_from.h.is_empty() {
        return None;
    }
    proof {
        lemma_wave_settled(graph@, source as int, sink as int, steps as int, n as int);
    }
    match counts.h.get(&sink) {
        Some(count) => Some(*count),
        None => None,
    }
}

/// How many ways lead from one device to another, counted for all ways of
/// one length at once.
pub fn count_paths2(graph: &Graph, label_source: &str, label_sink: &str) -> (count: i64)
    requires
        graph@.wf(),
        spec_count_paths2(graph@, label_source.spec_bytes(), label_sink.spec_bytes()) is Some,
    ensures
        Some(count) == spec_count_paths2(
            graph@,
            label_source.spec_bytes(),
            label_sink.spec_bytes(),
        ),
{
    try_count_paths2(graph, label_source.as_bytes(), label_sink.as_bytes()).unwrap()
}

/// The product of three counts, if all three are there and the product is
/// not too large.
pub open spec fn product(first: Option<i64>, second: Option<i64>, third: Option<i64>) -> Option<
    i64,
> {
    match (first, second, third) {
        (Some(a), Some(b), Some(c)) => if i64::MIN <= a * b <= i64::MAX && i64::MIN <= a * b * c
            <= i64::MAX {
            Some((a * b * c) as i64)
        } else {
            None
        },
        _ => None,
    }
}

/// The answer to the second part: how many ways lead from `svr` to `out`
/// by way of `fft` and then `dac`.
pub open spec fn spec_answer_2(text: Seq<u8>) -> Option<i64> {
    match spec_parse_text(text) {
        Some(net) => product(
            spec_count_paths2(net, "svr".spec_bytes(), "fft".spec_bytes()),
            spec_count_paths2(net, "fft".spec_bytes(), "dac".spec_bytes()),
            spec_count_paths2(net, "dac".spec_bytes(), "out".spec_bytes()),
        ),
        None => None,
    }
}

/// Multiplies three counts.
pub fn multiply(first: Option<i64>, second: Option<i64>, third: Option<i64>) -> (all: Option<i64>)
    ensures
        all == product(first, second, third),
{
    match (first, second, third) {
        (Some(a), Some(b), Some(c)) => match a.checked_mul(b) {
            Some(both) => both.checked_mul(c),
            None => None,
        },
        _ => None,
    }
}

/// Counts the ways that lead from `svr` to `out` by way of `fft` and then
/// `dac`.
pub fn try_parse_2(text: &[u8]) -> (answer: Option<i64>)
    ensures
        answer == spec_answer_2(text@),
{
    match parse_text(text) {
        Some(graph) => {
            let first = try_count_paths2(&graph, "svr".as_bytes(), "fft".as_bytes());
            let second = try_count_paths2(&graph, "fft".as_bytes(), "dac".as_bytes());
            let third = try_count_paths2(&graph, "dac".as_bytes(), "out".as_bytes());
            multiply(first, second, third)
        },
        None => None,
    }
}

/// How many ways lead from `svr` to `out` by way of `fft` and then `dac` in
/// the wiring that `text` describes.
pub fn parse_2(text: &str) -> (answer: i64)
    requires
        spec_answer_2(text.spec_bytes()) is Some,
    ensures
        Some(answer) == spec_answer_2(text.spec_bytes()),
{
    try_parse_2(text.as_bytes()).unwrap()
}

} // verus!

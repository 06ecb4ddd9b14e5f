//! Which input goes to which output channel.

use vstd::prelude::*;

verus! {

/// For every input the output channel that it goes to. The view is the list of
/// output channels.
#[derive(Clone, Debug)]
pub struct ChannelMap {
    mapping: Vec<usize>,
}

impl View for ChannelMap {
    type V = Seq<usize>;

    closed spec fn view(&self) -> Seq<usize> {
        self.mapping@
    }
}

/// Every one of the outputs occurs exactly once.
pub open spec fn is_permutation(map: Seq<usize>) -> bool {
    &&& forall|i: int| 0 <= i < map.len() ==> #[trigger] map[i] < map.len()
    &&& forall|i: int, j: int| 0 <= i < j < map.len() ==> map[i] != map[j]
}

/// The first place from `from` on that holds `output`.
pub open spec fn place_of(map: Seq<usize>, output: int, from: int) -> Option<int>
    decreases map.len() - from,
{
    if from < 0 || from >= map.len() {
        None
    } else if map[from] == output {
        Some(from)
    } else {
        place_of(map, output, from + 1)
    }
}

/// The input that goes to `output`; `otherwise` where none does.
pub open spec fn input_for(map: Seq<usize>, output: int, otherwise: int) -> int {
    match place_of(map, output, 0) {
        Some(i) => i,
        None => otherwise,
    }
}

/// `map` after the inputs `row` and the one that goes to `target` have changed
/// places. Nothing changes where one of them is not a channel.
pub open spec fn with_swap(map: Seq<usize>, row: int, target: int) -> Seq<usize> {
    if row >= map.len() || target >= map.len() {
        map
    } else {
        let other = input_for(map, target, row);
        map.update(row, map[other]).update(other, map[row])
    }
}

proof fn lemma_place(map: Seq<usize>, output: int, from: int)
    requires
        0 <= from,
    ensures
        match place_of(map, output, from) {
            Some(i) => from <= i < map.len() && map[i] == output,
            None => forall|i: int| from <= i < map.len() ==> map[i] != output,
        },
    decreases map.len() - from,
{
    if from < map.len() && map[from] != output {
        lemma_place(map, output, from + 1);
    }
}

impl ChannelMap {
    /// Every input to the output of the same number.
    pub fn identity(n: usize) -> (r: ChannelMap)
        ensures
            r@ == Seq::new(n as nat, |i: int| i as usize),
    {
        let mut mapping: Vec<usize> = Vec::new();
        let mut i: usize = 0;
        while i < n
            invariant
                i <= n,
                mapping@ == Seq::new(i as nat, |k: int| k as usize),
            decreases n - i,
        {
            mapping.push(i);
            i += 1;
            assert(mapping@ =~= Seq::new(i as nat, |k: int| k as usize));
        }
        ChannelMap { mapping }
    }

    /// The given map. It is meant to hold every number below its length once.
    pub fn from_mapping(mapping: Vec<usize>) -> (r: ChannelMap)
        ensures
            r@ == mapping@,
    {
        ChannelMap { mapping }
    }

    /// How many channels there are.
    pub fn num_channels(&self) -> (r: usize)
        ensures
            r == self@.len(),
    {
        self.mapping.len()
    }

    /// The output of an input.
    pub fn get(&self, input: usize) -> (r: usize)
        requires
            input < self@.len(),
        ensures
            r == self@[input as int],
    {
        self.mapping[input]
    }

    /// All outputs.
    pub fn mapping(&self) -> (r: &[usize])
        ensures
            r@ == self@,
    {
        self.mapping.as_slice()
    }

    /// The input that goes to an output; `output` itself where none does.
    pub fn input_of(&self, output: usize) -> (r: usize)
        ensures
            r == input_for(self@, output as int, output as int),
    {
        match self.place(output) {
            Some(i) => i,
            None => output,
        }
    }

    fn place(&self, output: usize) -> (r: Option<usize>)
        ensures
            match r {
                Some(i) => place_of(self@, output as int, 0) == Some(i as int) && i < self@.len(),
                None => place_of(self@, output as int, 0) is None,
            },
    {
        let mut i: usize = 0;
        while i < self.mapping.len()
            invariant
                i <= self@.len(),
                self@ == self.mapping@,
                place_of(self@, output as int, i as int) == place_of(self@, output as int, 0),
            decreases self@.len() - i,
        {
            if self.mapping[i] == output {
                return Some(i);
            }
            i += 1;
        }
        None
    }

    /// Lets `input_row` go to `target_output`; the input that went there takes
    /// its place. Does nothing where one of them is not a channel.
    pub fn swap(&mut self, input_row: usize, target_output: usize)
        ensures
            final(self)@ == with_swap(old(self)@, input_row as int, target_output as int),
    {
        let n: usize = self.mapping.len();
        if input_row >= n || target_output >= n {
            return;
        }
        let other = match self.place(target_output) {
            Some(i) => i,
            None => input_row,
        };
        let a = self.mapping[input_row];
        let b = self.mapping[other];
        self.mapping[input_row] = b;
        self.mapping[other] = a;
        assert(self@ =~= with_swap(old(self)@, input_row as int, target_output as int));
    }
}

// ── Laws ───────────────────────────────────────────────────────────────────

/// The identity is a permutation.
pub proof fn law_identity_is_permutation(n: usize)
    ensures
        is_permutation(Seq::new(n as nat, |i: int| i as usize)),
{
}

/// A permutation stays one when inputs change places.
pub proof fn law_swap_keeps_permutation(map: Seq<usize>, row: usize, target: usize)
    requires
        is_permutation(map),
    ensures
        is_permutation(with_swap(map, row as int, target as int)),
{
    lemma_place(map, target as int, 0);
}

proof fn lemma_reaches(map: Seq<usize>, target: int)
    requires
        is_permutation(map),
        0 <= target < map.len(),
    ensures
        place_of(map, target, 0) is Some,
{
    lemma_place(map, target, 0);
    if place_of(map, target, 0) is None {
        let values = map.map_values(|v: usize| v as int);
        assert(values.no_duplicates()) by {
            assert forall|i: int, j: int|
                0 <= i < values.len() && 0 <= j < values.len() && i != j implies values[i]
                != values[j] by {
                if i < j {
                    assert(map[i] != map[j]);
                } else {
                    assert(map[j] != map[i]);
                }
            }
        }
        values.unique_seq_to_set();
        let others = vstd::set_lib::set_int_range(0, map.len() as int).remove(target);
        vstd::set_lib::lemma_int_range(0, map.len() as int);
        assert(values.to_set().subset_of(others)) by {
            assert forall|v: int| values.to_set().contains(v) implies others.contains(v) by {
                let i = choose|i: int| 0 <= i < values.len() && values[i] == v;
                assert(map[i] < map.len());
                assert(map[i] != target);
            }
        }
        vstd::set_lib::lemma_len_subset(values.to_set(), others);
    }
}

/// In a permutation a swap brings the input to the output asked for, gives the
/// old output to the input that went there, and leaves all others alone.
pub proof fn law_swap_assigns(map: Seq<usize>, row: usize, target: usize)
    requires
        is_permutation(map),
        row < map.len(),
        target < map.len(),
    ensures
        with_swap(map, row as int, target as int)[row as int] == target,
        forall|i: int|
            0 <= i < map.len() && i != row && map[i] != target ==> #[trigger] with_swap(
                map,
                row as int,
                target as int,
            )[i] == map[i],
        forall|i: int|
            0 <= i < map.len() && map[i] == target ==> #[trigger] with_swap(
                map,
                row as int,
                target as int,
            )[i] == (if i == row {
                target
            } else {
                map[row as int]
            }),
{
    lemma_reaches(map, target as int);
    lemma_place(map, target as int, 0);
}

/// Swapping back restores the map.
pub proof fn law_swap_undone(map: Seq<usize>, row: usize, target: usize)
    requires
        is_permutation(map),
        row < map.len(),
        target < map.len(),
    ensures
        with_swap(with_swap(map, row as int, target as int), row as int, map[row as int] as int)
            == map,
{
    let once = with_swap(map, row as int, target as int);
    lemma_reaches(map, target as int);
    lemma_place(map, target as int, 0);
    law_swap_keeps_permutation(map, row, target);
    lemma_reaches(once, map[row as int] as int);
    lemma_place(once, map[row as int] as int, 0);
    assert(with_swap(once, row as int, map[row as int] as int) =~= map);
}

/// The input for an output is the first one that goes to it.
pub proof fn law_input_for_finds(map: Seq<usize>, output: int, otherwise: int, input: int)
    requires
        0 <= input < map.len(),
        map[input] == output,
        forall|k: int| 0 <= k < input ==> map[k] != output,
    ensures
        input_for(map, output, otherwise) == input,
{
    lemma_place(map, output, 0);
    lemma_first_place(map, output, 0, input);
}

proof fn lemma_first_place(map: Seq<usize>, output: int, from: int, input: int)
    requires
        0 <= from <= input < map.len(),
        map[input] == output,
        forall|k: int| from <= k < input ==> map[k] != output,
    ensures
        place_of(map, output, from) == Some(input),
    decreases input - from,
{
    if from < input {
        lemma_first_place(map, output, from + 1, input);
    }
}

/// Where no input goes to an output, the one given instead is taken.
pub proof fn law_input_for_none(map: Seq<usize>, output: int, otherwise: int)
    requires
        forall|k: int| 0 <= k < map.len() ==> map[k] != output,
    ensures
        input_for(map, output, otherwise) == otherwise,
{
    lemma_place(map, output, 0);
}

} // verus!

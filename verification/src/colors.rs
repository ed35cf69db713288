//! The client color allocator.
//!
//! Maps client names to color tokens drawn from a fixed palette, assigning
//! in first-seen order: the next unseen client receives the palette entry at
//! `next_color_index`, and the index advances modulo the palette size, so
//! colors wrap around once the palette is exhausted.  A name that already has
//! a color keeps it forever; the mapping only grows.

use vstd::arithmetic::div_mod::{
    lemma_add_mod_noop, lemma_mod_division_less_than_divisor, lemma_mod_twice, lemma_small_mod,
};
use vstd::prelude::*;

verus! {

/// A client and its assigned color token.
pub struct Client {
    pub name: String,
    pub color: String,
}

/// Mathematical model of the allocator: the name/color pairs in first-seen
/// order, the palette, and the index of the palette entry that the next
/// unseen client will receive.
#[verifier::ext_equal]
pub struct ColorMapModel {
    pub colors: Seq<(Seq<char>, Seq<char>)>,
    pub palette: Seq<Seq<char>>,
    pub next_color_index: nat,
}

impl ColorMapModel {
    /// Well-formedness: a non-empty palette, pairwise-distinct client names,
    /// and the next index derivable as the entry count modulo the palette
    /// size.
    pub open spec fn wf(self) -> bool {
        &&& self.palette.len() >= 1
        &&& self.next_color_index == self.colors.len() % self.palette.len()
        &&& forall|i: int, j: int|
            0 <= i < j < self.colors.len() ==> self.colors[i].0 != self.colors[j].0
    }

    /// Whether some client of this name has a color already.
    pub open spec fn has_name(self, name: Seq<char>) -> bool {
        exists|i: int| 0 <= i < self.colors.len() && self.colors[i].0 == name
    }

    /// The color assigned to the named client (meaningful when `has_name`).
    pub open spec fn color_of(self, name: Seq<char>) -> Seq<char> {
        let i = choose|i: int| 0 <= i < self.colors.len() && self.colors[i].0 == name;
        self.colors[i].1
    }

    /// One allocation step: the resulting state and the color returned.  A
    /// known name keeps its color and leaves the state untouched; an unseen
    /// name is appended with the palette entry at `next_color_index`, and the
    /// index advances modulo the palette size.
    pub open spec fn assign(self, name: Seq<char>) -> (ColorMapModel, Seq<char>) {
        if self.has_name(name) {
            (self, self.color_of(name))
        } else {
            let color = self.palette[self.next_color_index as int];
            (
                ColorMapModel {
                    colors: self.colors.push((name, color)),
                    palette: self.palette,
                    next_color_index: (self.colors.len() + 1) % self.palette.len(),
                },
                color,
            )
        }
    }
}

/// The fixed palette of twenty distinct color tokens.
pub open spec fn spec_default_palette() -> Seq<Seq<char>> {
    seq![
        "#1f77b4"@,
        "#ff7f0e"@,
        "#2ca02c"@,
        "#d62728"@,
        "#9467bd"@,
        "#8c564b"@,
        "#e377c2"@,
        "#7f7f7f"@,
        "#bcbd22"@,
        "#17becf"@,
        "#aec7e8"@,
        "#ffbb78"@,
        "#98df8a"@,
        "#ff9896"@,
        "#c5b0d5"@,
        "#c49c94"@,
        "#f7b6d2"@,
        "#c7c7c7"@,
        "#dbdb8d"@,
        "#9edae5"@,
    ]
}

/// The allocator state: client/color pairs in first-seen order, the palette,
/// and the index of the next palette entry to hand out.
pub struct ClientColorMap {
    colors: Vec<Client>,
    palette: Vec<String>,
    next_color_index: usize,
}

impl View for ClientColorMap {
    type V = ColorMapModel;

    closed spec fn view(&self) -> ColorMapModel {
        ColorMapModel {
            colors: self.colors@.map_values(|c: Client| (c.name@, c.color@)),
            palette: self.palette@.map_values(|p: String| p@),
            next_color_index: self.next_color_index as nat,
        }
    }
}

impl Default for ClientColorMap {
    /// An empty mapping over the default palette, with the index at the
    /// first palette entry.
    fn default() -> (r: ClientColorMap)
        ensures
            r@.wf(),
            r@.colors.len() == 0,
            r@.palette == spec_default_palette(),
            r@.next_color_index == 0,
    {
        let mut palette: Vec<String> = Vec::new();
        palette.push("#1f77b4".to_owned());
        palette.push("#ff7f0e".to_owned());
        palette.push("#2ca02c".to_owned());
        palette.push("#d62728".to_owned());
        palette.push("#9467bd".to_owned());
        palette.push("#8c564b".to_owned());
        palette.push("#e377c2".to_owned());
        palette.push("#7f7f7f".to_owned());
        palette.push("#bcbd22".to_owned());
        palette.push("#17becf".to_owned());
        palette.push("#aec7e8".to_owned());
        palette.push("#ffbb78".to_owned());
        palette.push("#98df8a".to_owned());
        palette.push("#ff9896".to_owned());
        palette.push("#c5b0d5".to_owned());
        palette.push("#c49c94".to_owned());
        palette.push("#f7b6d2".to_owned());
        palette.push("#c7c7c7".to_owned());
        palette.push("#dbdb8d".to_owned());
        palette.push("#9edae5".to_owned());
        let r = ClientColorMap { colors: Vec::new(), palette, next_color_index: 0 };
        proof {
            assert(r@.palette =~= spec_default_palette());
            assert(r@.colors =~= Seq::<(Seq<char>, Seq<char>)>::empty());
        }
        r
    }
}

impl ClientColorMap {
    /// Number of clients that have been assigned a color.
    pub fn client_count(&self) -> (n: usize)
        ensures
            n == self@.colors.len(),
    {
        self.colors.len()
    }

    /// The name of the `i`-th client in first-seen order.
    pub fn client_name_at(&self, i: usize) -> (name: &String)
        requires
            i < self@.colors.len(),
        ensures
            name@ == self@.colors[i as int].0,
    {
        &self.colors[i].name
    }

    /// The color of the `i`-th client in first-seen order.
    pub fn client_color_at(&self, i: usize) -> (color: &String)
        requires
            i < self@.colors.len(),
        ensures
            color@ == self@.colors[i as int].1,
    {
        &self.colors[i].color
    }

    /// The palette index that the next unseen client will receive.
    pub fn next_index(&self) -> (n: usize)
        ensures
            n == self@.next_color_index,
    {
        self.next_color_index
    }

    /// Number of colors in the palette.
    pub fn palette_len(&self) -> (n: usize)
        ensures
            n == self@.palette.len(),
    {
        self.palette.len()
    }

    /// The `i`-th palette color.
    pub fn palette_color_at(&self, i: usize) -> (color: &String)
        requires
            i < self@.palette.len(),
        ensures
            color@ == self@.palette[i as int],
    {
        &self.palette[i]
    }

    /// Rebuilds an allocator over the default palette from recovered
    /// client/color pairs, in order.  The next palette index is re-derived
    /// from the entry count.  Fails exactly when two entries carry the same
    /// name, which no well-formed state can hold.
    pub fn rebuild(entries: Vec<Client>) -> (r: Option<ClientColorMap>)
        ensures
            match r {
                Some(m) => {
                    &&& m@.wf()
                    &&& m@.palette == spec_default_palette()
                    &&& m@.colors == entries@.map_values(|c: Client| (c.name@, c.color@))
                },
                None => exists|i: int, j: int|
                    0 <= i < j < entries@.len() && entries@[i].name@ == entries@[j].name@,
            },
    {
        let ghost entry_views = entries@.map_values(|c: Client| (c.name@, c.color@));
        let n = entries.len();
        let mut i: usize = 1;
        while i < n
            invariant
                n == entries@.len(),
                entry_views == entries@.map_values(|c: Client| (c.name@, c.color@)),
                forall|p: int, q: int| 0 <= p < q < i ==> entry_views[p].0 != entry_views[q].0,
            decreases n - i,
        {
            let mut j: usize = 0;
            while j < i
                invariant
                    n == entries@.len(),
                    j <= i < n,
                    entry_views == entries@.map_values(|c: Client| (c.name@, c.color@)),
                    forall|q: int| 0 <= q < j ==> entry_views[q].0 != entry_views[i as int].0,
                decreases i - j,
            {
                if entries[j].name == entries[i].name {
                    return None;
                }
                j += 1;
            }
            i += 1;
        }
        let defaults = ClientColorMap::default();
        let count = entries.len();
        let palette_count = defaults.palette.len();
        let m = ClientColorMap {
            colors: entries,
            palette: defaults.palette,
            next_color_index: count % palette_count,
        };
        proof {
            lemma_mod_division_less_than_divisor(count as int, palette_count as int);
            assert(m@.colors =~= entry_views);
            assert(m@.palette =~= spec_default_palette());
        }
        Some(m)
    }
}

/// Looks up the color already assigned to `name`, without assigning one.
pub fn lookup_client_color(map: &ClientColorMap, name: &String) -> (r: Option<String>)
    requires
        map@.wf(),
    ensures
        match r {
            Some(c) => map@.has_name(name@) && c@ == map@.color_of(name@),
            None => !map@.has_name(name@),
        },
{
    let mut i: usize = 0;
    while i < map.colors.len()
        invariant
            map@.wf(),
            i <= map.colors.len(),
            forall|k: int| 0 <= k < i ==> map@.colors[k].0 != name@,
        decreases map.colors.len() - i,
    {
        if map.colors[i].name == *name {
            proof {
                let w = choose|w: int|
                    0 <= w < map@.colors.len() && map@.colors[w].0 == name@;
                assert(map@.colors[i as int].0 == name@);
                assert(w == i);
            }
            return Some(map.colors[i].color.clone());
        }
        i += 1;
    }
    None
}

/// Returns the color for `client_name`, assigning the next palette entry and
/// recording it if the name has never been seen.  The caller persists the
/// mapping when it grew.
pub fn get_or_assign_client_color(map: &mut ClientColorMap, client_name: &str) -> (color: String)
    requires
        old(map)@.wf(),
    ensures
        final(map)@.wf(),
        final(map)@ == old(map)@.assign(client_name@).0,
        color@ == old(map)@.assign(client_name@).1,
{
    let name = client_name.to_owned();
    match lookup_client_color(map, &name) {
        Some(color) => color,
        None => {
            proof {
                lemma_mod_division_less_than_divisor(
                    map@.colors.len() as int,
                    map@.palette.len() as int,
                );
                assert(map@.colors.len() % map@.palette.len() == (map@.colors.len() as int) % (
                map@.palette.len() as int));
                assert(map@.next_color_index < map@.palette.len());
                assert(map.next_color_index < map.palette.len());
            }
            let color = map.palette[map.next_color_index].clone();
            let new_index = (map.next_color_index + 1) % map.palette.len();
            let ghost name_view = name@;
            let ghost color_view = color@;
            let ghost prev = map@;
            map.colors.push(Client { name, color: color.clone() });
            map.next_color_index = new_index;
            proof {
                assert(map@.colors =~= prev.colors.push((name_view, color_view)));
                assert(map@.palette =~= prev.palette);
                lemma_mod_incr(prev.colors.len() as int, prev.palette.len() as int);
                assert(map@ =~= prev.assign(client_name@).0);
            }
            color
        },
    }
}

/// Adding one to a reduced remainder and reducing again is the same as
/// reducing the successor.
proof fn lemma_mod_incr(a: int, n: int)
    requires
        n > 0,
        a >= 0,
    ensures
        (a % n + 1) % n == (a + 1) % n,
{
    lemma_add_mod_noop(a, 1, n);
    lemma_mod_twice(a, n);
    if n > 1 {
        lemma_small_mod(1nat, n as nat);
    } else {
        assert(n == 1);
        lemma_small_mod(0nat, 1nat);
    }
}

/// Law: an allocation step never rewrites an existing entry; the mapping is
/// append-only, so a client's color never changes once assigned.
pub proof fn lemma_assign_append_only(m: ColorMapModel, name: Seq<char>)
    requires
        m.wf(),
    ensures
        forall|i: int|
            0 <= i < m.colors.len() ==> m.assign(name).0.colors[i] == m.colors[i],
        m.assign(name).0.colors.len() >= m.colors.len(),
        m.assign(name).0.palette == m.palette,
{
}

/// Law: an allocation step preserves well-formedness.
pub proof fn lemma_assign_preserves_wf(m: ColorMapModel, name: Seq<char>)
    requires
        m.wf(),
    ensures
        m.assign(name).0.wf(),
{
    if !m.has_name(name) {
        let m1 = m.assign(name).0;
        assert forall|i: int, j: int| 0 <= i < j < m1.colors.len() implies m1.colors[i].0
            != m1.colors[j].0 by {
            if j == m.colors.len() {
                assert(!m.has_name(name));
                assert(m1.colors[i].0 == m.colors[i].0);
            }
        }
    }
}

/// Law: a client never seen before is assigned the palette entry at the
/// current entry count modulo the palette size.  Successive fresh clients
/// therefore receive the palette colors in order, and the entry after the
/// last palette color wraps around to the first.
pub proof fn lemma_fresh_assign_in_palette_order(m: ColorMapModel, name: Seq<char>)
    requires
        m.wf(),
        !m.has_name(name),
    ensures
        m.assign(name).1 == m.palette[(m.colors.len() % m.palette.len()) as int],
        m.assign(name).0.colors.len() == m.colors.len() + 1,
        m.assign(name).0.has_name(name),
        m.assign(name).0.color_of(name) == m.assign(name).1,
        m.assign(name).0.wf(),
{
    lemma_assign_preserves_wf(m, name);
    let m1 = m.assign(name).0;
    let last = m.colors.len() as int;
    assert(m1.colors[last].0 == name);
    let w = choose|w: int| 0 <= w < m1.colors.len() && m1.colors[w].0 == name;
    assert(w == last);
}

/// Law: assigning a color to the same client twice returns the same color
/// both times and advances the allocator only once in total.
pub proof fn lemma_assign_twice_same_color(m: ColorMapModel, name: Seq<char>)
    requires
        m.wf(),
    ensures
        m.assign(name).0.assign(name).1 == m.assign(name).1,
        m.assign(name).0.assign(name).0 == m.assign(name).0,
{
    if m.has_name(name) {
    } else {
        lemma_fresh_assign_in_palette_order(m, name);
    }
}

} // verus!

//! The CS2 game data the bot works with: skins, stickers, containers, and
//! the tables and autocompletion lists built from them.
use std::collections::HashMap;
use vstd::prelude::*;
use crate::text::{lemma_map_take_push, lemma_texts_push, texts};

verus! {

/// A table from names to values in which each name occurs once.
#[derive(Debug)]
pub struct NamedTable<V> {
    entries: Vec<(String, V)>,
}

/// The index of the entry named `k`.
spec fn index_of<V>(entries: Seq<(String, V)>, k: Seq<char>) -> int {
    choose|i: int| 0 <= i < entries.len() && entries[i].0@ == k
}

/// Some entry is named `k`.
spec fn has_name<V>(entries: Seq<(String, V)>, k: Seq<char>) -> bool {
    exists|i: int| 0 <= i < entries.len() && #[trigger] entries[i].0@ == k
}

/// No name occurs twice.
spec fn distinct_names<V>(entries: Seq<(String, V)>) -> bool {
    forall|i: int, j: int|
        0 <= i < entries.len() && 0 <= j < entries.len() && i != j ==> #[trigger] entries[i].0@
            != #[trigger] entries[j].0@
}

/// The map that the entries describe.
spec fn entries_map<V>(entries: Seq<(String, V)>) -> Map<Seq<char>, V> {
    Map::new(|k: Seq<char>| has_name(entries, k), |k: Seq<char>| entries[index_of(entries, k)].1)
}

impl<V> View for NamedTable<V> {
    type V = Map<Seq<char>, V>;

    closed spec fn view(&self) -> Map<Seq<char>, V> {
        entries_map(self.entries@)
    }
}

proof fn lemma_entry_in_map<V>(entries: Seq<(String, V)>, i: int)
    requires
        distinct_names(entries),
        0 <= i < entries.len(),
    ensures
        entries_map(entries).contains_key(entries[i].0@),
        entries_map(entries)[entries[i].0@] == entries[i].1,
{
    let k = entries[i].0@;
    assert(has_name(entries, k));
    let j = index_of(entries, k);
    assert(entries[j].0@ == k);
}

impl<V> NamedTable<V> {
    #[verifier::type_invariant]
    closed spec fn names_are_distinct(self) -> bool {
        distinct_names(self.entries@)
    }

    /// An empty table.
    pub fn new() -> (table: Self)
        ensures
            table@ == Map::<Seq<char>, V>::empty(),
    {
        let table = NamedTable { entries: Vec::new() };
        assert(table@ =~= Map::<Seq<char>, V>::empty());
        table
    }

    /// The number of names in the table.
    pub fn len(&self) -> (n: usize)
        ensures
            n == self@.len(),
    {
        proof {
            use_type_invariant(self);
            self.lemma_len();
        }
        self.entries.len()
    }

    proof fn lemma_len(&self)
        requires
            distinct_names(self.entries@),
        ensures
            self@.dom().finite(),
            self@.len() == self.entries@.len(),
    {
        let names = self.entries@.map_values(|e: (String, V)| e.0@);
        assert forall|i: int, j: int|
            0 <= i < names.len() && 0 <= j < names.len() && i != j implies names[i] != names[j] by {}
        assert(names.no_duplicates());
        assert(self@.dom() =~= names.to_set()) by {
            assert forall|k: Seq<char>| self@.dom().contains(k) implies names.to_set().contains(k) by {
                let i = choose|i: int| 0 <= i < self.entries@.len() && #[trigger] self.entries@[i].0@ == k;
                assert(names[i] == k);
            }
            assert forall|k: Seq<char>| names.to_set().contains(k) implies self@.dom().contains(k) by {
                let i = choose|i: int| 0 <= i < names.len() && names[i] == k;
                assert(self.entries@[i].0@ == k);
            }
        }
        names.unique_seq_to_set();
    }

    /// The position of the entry named `key`, if there is one.
    fn position(&self, key: &str) -> (r: Option<usize>)
        ensures
            match r {
                Some(i) => i < self.entries@.len() && self.entries@[i as int].0@ == key@,
                None => !has_name(self.entries@, key@),
            },
    {
        let wanted: String = key.to_owned();
        let mut i: usize = 0;
        while i < self.entries.len()
            invariant
                wanted@ == key@,
                i <= self.entries@.len(),
                forall|j: int| 0 <= j < i ==> self.entries@[j].0@ != key@,
            decreases self.entries@.len() - i,
        {
            if self.entries[i].0 == wanted {
                return Some(i);
            }
            i = i + 1;
        }
        None
    }

    /// The value named `key`, if there is one.
    pub fn get(&self, key: &str) -> (r: Option<&V>)
        ensures
            match r {
                Some(v) => self@.contains_key(key@) && *v == self@[key@],
                None => !self@.contains_key(key@),
            },
    {
        proof {
            use_type_invariant(self);
        }
        match self.position(key) {
            Some(i) => {
                proof {
                    lemma_entry_in_map(self.entries@, i as int);
                }
                Some(&self.entries[i].1)
            },
            None => None,
        }
    }

    /// Sets the value named `key` to `value`, replacing the value it had.
    pub fn insert(&mut self, key: String, value: V)
        ensures
            final(self)@ == old(self)@.insert(key@, value),
    {
        proof {
            use_type_invariant(&*self);
        }
        let ghost before = self.entries@;
        let ghost k = key@;
        let found = self.position(key.as_str());
        let mut entries: Vec<(String, V)> = Vec::new();
        std::mem::swap(&mut entries, &mut self.entries);
        match found {
            Some(i) => {
                entries[i] = (key, value);
                proof {
                    let after = entries@;
                    assert forall|a: int, b: int|
                        0 <= a < after.len() && 0 <= b < after.len() && a != b implies #[trigger] after[a].0@
                            != #[trigger] after[b].0@ by {
                        if a != i && b != i {
                            assert(after[a] == before[a] && after[b] == before[b]);
                        } else if a == i {
                            assert(after[b] == before[b]);
                            assert(before[a].0@ != before[b].0@);
                        } else {
                            assert(after[a] == before[a]);
                            assert(before[a].0@ != before[b].0@);
                        }
                    }
                }
            },
            None => {
                entries.push((key, value));
                proof {
                    let after = entries@;
                    assert forall|a: int, b: int|
                        0 <= a < after.len() && 0 <= b < after.len() && a != b implies #[trigger] after[a].0@
                            != #[trigger] after[b].0@ by {
                        if a < before.len() && b < before.len() {
                            assert(after[a] == before[a] && after[b] == before[b]);
                        } else if a < before.len() {
                            assert(after[a] == before[a]);
                            if before[a].0@ == k {
                                assert(has_name(before, k));
                            }
                        } else {
                            assert(after[b] == before[b]);
                            if before[b].0@ == k {
                                assert(has_name(before, k));
                            }
                        }
                    }
                }
            },
        }
        self.entries = entries;
        proof {
            let after = self.entries@;
            assert forall|q: Seq<char>| #[trigger] has_name(after, q) == (has_name(before, q) || q == k) by {
                if has_name(before, q) && q != k {
                    let j = choose|j: int| 0 <= j < before.len() && #[trigger] before[j].0@ == q;
                    assert(after[j] == before[j]);
                }
                if has_name(after, q) && q != k {
                    let j = choose|j: int| 0 <= j < after.len() && #[trigger] after[j].0@ == q;
                    assert(after[j] == before[j]);
                }
                if q == k {
                    assert(has_name(after, q)) by {
                        if has_name(before, k) {
                            let j = choose|j: int| 0 <= j < before.len() && #[trigger] before[j].0@ == k;
                            assert(after[j].0@ == k);
                        } else {
                            assert(after[before.len() as int].0@ == k);
                        }
                    }
                }
            }
            assert forall|q: Seq<char>| #[trigger] has_name(after, q) implies entries_map(after)[q]
                == (if q == k { value } else { entries_map(before)[q] }) by {
                let j = choose|j: int| 0 <= j < after.len() && #[trigger] after[j].0@ == q;
                lemma_entry_in_map(after, j);
                if q != k {
                    assert(after[j] == before[j]);
                    lemma_entry_in_map(before, j);
                }
            }
            assert(self@ =~= old(self)@.insert(key@, value));
        }
    }
}


/// One variation of a skin (such as a phase of a finish).
#[derive(Debug)]
pub struct SkinVariation {
    formatted_name: String,
    condition_images: [String; 5],
    inspect_urls: [String; 5],
}

impl SkinVariation {
    /// The name, condition images and inspect links of the variation.
    pub closed spec fn parts(self) -> (String, [String; 5], [String; 5]) {
        (self.formatted_name, self.condition_images, self.inspect_urls)
    }

    /// A variation with the given name, condition images and inspect links.
    pub fn new(formatted_name: String, condition_images: [String; 5], inspect_urls: [String; 5]) -> (v: Self)
        ensures
            v.parts() == (formatted_name, condition_images, inspect_urls),
    {
        SkinVariation { formatted_name, condition_images, inspect_urls }
    }

    /// The display name of the variation.
    pub fn formatted_name(&self) -> (r: &String)
        ensures
            *r == self.parts().0,
    {
        &self.formatted_name
    }

    /// One image for each wear condition.
    pub fn condition_images(&self) -> (r: &[String; 5])
        ensures
            *r == self.parts().1,
    {
        &self.condition_images
    }

    /// One inspect link for each wear condition.
    pub fn inspect_urls(&self) -> (r: &[String; 5])
        ensures
            *r == self.parts().2,
    {
        &self.inspect_urls
    }
}

/// A weapon skin.
#[derive(Debug)]
pub struct Skin {
    pub formatted_name: String,
    pub description: String,
    pub flavor_text: String,
    pub quality: String,
    pub inspect_urls: [String; 5],
    pub image_urls: [String; 5],
    pub stattrak_available: bool,
    pub souvenir_available: bool,
    pub containers_found_in: Vec<String>,
    pub weapon_type: String,
    pub min_float: String,
    pub max_float: String,
    pub worst_condition_index: usize,
    pub best_condition_index: usize,
    pub variations: HashMap<String, SkinVariation>,
}

/// A sticker.
#[derive(Debug)]
pub struct Sticker {
    pub formatted_name: String,
    pub description: String,
    pub flavor_text: String,
    pub quality: String,
    pub inspect_urls: [String; 1],
    pub image_urls: [String; 1],
    pub stattrak_available: bool,
    pub souvenir_available: bool,
    pub containers_found_in: Vec<String>,
}

/// An item that can be viewed: a skin or a sticker.
#[derive(Debug)]
pub enum Item {
    Skin(Skin),
    Sticker(Sticker),
}

/// A case or capsule and the items it holds, by rarity.
#[derive(Debug)]
pub struct Container {
    pub formatted_name: String,
    pub image_url: String,
    pub items: HashMap<String, Vec<String>>,
    pub requires_key: bool,
}

/// Display names and the matching normalized names, in the same order.
#[derive(Debug)]
pub struct AutocompleteData {
    pub formatted: Vec<String>,
    pub unformatted: Vec<String>,
}

impl Default for AutocompleteData {
    fn default() -> (d: Self)
        ensures
            d.formatted@ == Seq::<String>::empty(),
            d.unformatted@ == Seq::<String>::empty(),
    {
        AutocompleteData { formatted: Vec::new(), unformatted: Vec::new() }
    }
}

/// Everything the bot knows of the game.
#[derive(Debug)]
pub struct GameData {
    pub item_data: NamedTable<Item>,
    pub item_autocomplete_data: AutocompleteData,
    pub skin_unformatted_names: Vec<String>,
    pub container_data: NamedTable<Container>,
    pub container_autocomplete_data: AutocompleteData,
}

/// The map obtained by inserting the entries, in order, into `m`.
pub open spec fn insert_all<V>(m: Map<Seq<char>, V>, entries: Seq<(Seq<char>, V)>) -> Map<Seq<char>, V>
    decreases entries.len(),
{
    if entries.len() == 0 {
        m
    } else {
        insert_all(m, entries.drop_last()).insert(entries.last().0, entries.last().1)
    }
}

/// The names of named entries, in order.
pub open spec fn names_of<V>(entries: Seq<(String, V)>) -> Seq<Seq<char>> {
    entries.map_values(|e: (String, V)| e.0@)
}

/// The item entries of the game data: the skins, then the stickers.
pub open spec fn item_entries(skins: Seq<(String, Skin)>, stickers: Seq<(String, Sticker)>) -> Seq<
    (Seq<char>, Item),
> {
    skins.map_values(|e: (String, Skin)| (e.0@, Item::Skin(e.1))) + stickers.map_values(
        |e: (String, Sticker)| (e.0@, Item::Sticker(e.1)),
    )
}

/// The container entries of the game data.
pub open spec fn container_entries(containers: Seq<(String, Container)>) -> Seq<(Seq<char>, Container)> {
    containers.map_values(|e: (String, Container)| (e.0@, e.1))
}

/// Builds the game data from the fetched skins, stickers and containers:
/// the items are the skins and then the stickers, keyed by name (a later
/// entry replaces an earlier one of the same name); the autocompletion lists
/// hold the display and normalized names in the order of the input.
pub fn build_game_data(
    skins: Vec<(String, Skin)>,
    stickers: Vec<(String, Sticker)>,
    containers: Vec<(String, Container)>,
) -> (g: GameData)
    ensures
        g.item_data@ == insert_all(Map::empty(), item_entries(skins@, stickers@)),
        texts(g.item_autocomplete_data.formatted@) == skins@.map_values(
            |e: (String, Skin)| e.1.formatted_name@,
        ) + stickers@.map_values(|e: (String, Sticker)| e.1.formatted_name@),
        texts(g.item_autocomplete_data.unformatted@) == names_of(skins@) + names_of(stickers@),
        texts(g.skin_unformatted_names@) == names_of(skins@),
        g.container_data@ == insert_all(Map::empty(), container_entries(containers@)),
        texts(g.container_autocomplete_data.formatted@) == containers@.map_values(
            |e: (String, Container)| e.1.formatted_name@,
        ),
        texts(g.container_autocomplete_data.unformatted@) == names_of(containers@),
{
    let ghost all_items = item_entries(skins@, stickers@);
    let mut item_data: NamedTable<Item> = NamedTable::new();
    let mut item_autocomplete_data = AutocompleteData::default();
    let mut skin_unformatted_names: Vec<String> = Vec::new();
    let ghost skin_seq = skins@;
    let ghost sticker_seq = stickers@;
    let n_skins = skins.len();
    for entry in it: skins
        invariant
            it.seq() == skin_seq,
            n_skins == skin_seq.len(),
            all_items == item_entries(skin_seq, sticker_seq),
            item_data@ == insert_all(Map::empty(), all_items.take(it.index() as int)),
            texts(item_autocomplete_data.formatted@) == skin_seq.take(it.index() as int).map_values(
                |e: (String, Skin)| e.1.formatted_name@,
            ),
            texts(item_autocomplete_data.unformatted@) == names_of(skin_seq.take(it.index() as int)),
            texts(skin_unformatted_names@) == names_of(skin_seq.take(it.index() as int)),
    {
        let ghost i = it.index();
        let ghost old_formatted = item_autocomplete_data.formatted@;
        let ghost old_unformatted = item_autocomplete_data.unformatted@;
        let ghost old_skin_names = skin_unformatted_names@;
        let (name, skin) = entry;
        item_autocomplete_data.formatted.push(skin.formatted_name.clone());
        item_autocomplete_data.unformatted.push(name.clone());
        skin_unformatted_names.push(name.clone());
        item_data.insert(name, Item::Skin(skin));
        proof {
            assert(skin_seq[i] == entry);
            assert(all_items.take(i + 1).drop_last() =~= all_items.take(i));
            assert(all_items[i] == (skin_seq[i].0@, Item::Skin(skin_seq[i].1)));
            assert(skin_seq.take(i + 1) =~= skin_seq.take(i).push(skin_seq[i]));
            lemma_texts_push(old_formatted, entry.1.formatted_name);
            lemma_texts_push(old_unformatted, entry.0);
            lemma_texts_push(old_skin_names, entry.0);
            lemma_map_take_push(skin_seq, i, |e: (String, Skin)| e.1.formatted_name@);
            lemma_map_take_push(skin_seq, i, |e: (String, Skin)| e.0@);
        }
    }
    assert(skin_seq.take(n_skins as int) =~= skin_seq);
    let ghost skin_formatted = texts(item_autocomplete_data.formatted@);
    let ghost skin_names = texts(item_autocomplete_data.unformatted@);
    for entry in it: stickers
        invariant
            it.seq() == sticker_seq,
            all_items == item_entries(skin_seq, sticker_seq),
            skin_formatted == skin_seq.map_values(|e: (String, Skin)| e.1.formatted_name@),
            skin_names == names_of(skin_seq),
            item_data@ == insert_all(Map::empty(), all_items.take(skin_seq.len() + it.index())),
            texts(item_autocomplete_data.formatted@) == skin_formatted + sticker_seq.take(
                it.index() as int,
            ).map_values(|e: (String, Sticker)| e.1.formatted_name@),
            texts(item_autocomplete_data.unformatted@) == skin_names + names_of(
                sticker_seq.take(it.index() as int),
            ),
    {
        let ghost i = it.index();
        let ghost old_formatted = item_autocomplete_data.formatted@;
        let ghost old_unformatted = item_autocomplete_data.unformatted@;
        let (name, sticker) = entry;
        item_autocomplete_data.formatted.push(sticker.formatted_name.clone());
        item_autocomplete_data.unformatted.push(name.clone());
        item_data.insert(name, Item::Sticker(sticker));
        proof {
            let n = skin_seq.len() + i;
            assert(sticker_seq[i] == entry);
            assert(all_items.take(n + 1).drop_last() =~= all_items.take(n));
            assert(all_items[n] == (sticker_seq[i].0@, Item::Sticker(sticker_seq[i].1)));
            assert(sticker_seq.take(i + 1) =~= sticker_seq.take(i).push(sticker_seq[i]));
            lemma_texts_push(old_formatted, entry.1.formatted_name);
            lemma_texts_push(old_unformatted, entry.0);
            lemma_map_take_push(sticker_seq, i, |e: (String, Sticker)| e.1.formatted_name@);
            lemma_map_take_push(sticker_seq, i, |e: (String, Sticker)| e.0@);
            assert(texts(item_autocomplete_data.formatted@) =~= skin_formatted + sticker_seq.take(
                i + 1,
            ).map_values(|e: (String, Sticker)| e.1.formatted_name@));
            assert(texts(item_autocomplete_data.unformatted@) =~= skin_names + names_of(
                sticker_seq.take(i + 1),
            ));
        }
    }
    assert(sticker_seq.take(sticker_seq.len() as int) =~= sticker_seq);
    assert(all_items.take((skin_seq.len() + sticker_seq.len()) as int) =~= all_items);
    let ghost all_containers = container_entries(containers@);
    let ghost container_seq = containers@;
    let mut container_data: NamedTable<Container> = NamedTable::new();
    let mut container_autocomplete_data = AutocompleteData::default();
    for entry in it: containers
        invariant
            it.seq() == container_seq,
            all_containers == container_entries(container_seq),
            container_data@ == insert_all(Map::empty(), all_containers.take(it.index() as int)),
            texts(container_autocomplete_data.formatted@) == container_seq.take(
                it.index() as int,
            ).map_values(|e: (String, Container)| e.1.formatted_name@),
            texts(container_autocomplete_data.unformatted@) == names_of(
                container_seq.take(it.index() as int),
            ),
    {
        let ghost i = it.index();
        let ghost old_formatted = container_autocomplete_data.formatted@;
        let ghost old_unformatted = container_autocomplete_data.unformatted@;
        let (name, container) = entry;
        container_autocomplete_data.formatted.push(container.formatted_name.clone());
        container_autocomplete_data.unformatted.push(name.clone());
        container_data.insert(name, container);
        proof {
            assert(container_seq[i] == entry);
            assert(all_containers.take(i + 1).drop_last() =~= all_containers.take(i));
            assert(container_seq.take(i + 1) =~= container_seq.take(i).push(container_seq[i]));
            lemma_texts_push(old_formatted, entry.1.formatted_name);
            lemma_texts_push(old_unformatted, entry.0);
            lemma_map_take_push(container_seq, i, |e: (String, Container)| e.1.formatted_name@);
            lemma_map_take_push(container_seq, i, |e: (String, Container)| e.0@);
        }
    }
    assert(container_seq.take(container_seq.len() as int) =~= container_seq);
    assert(all_containers.take(container_seq.len() as int) =~= all_containers);
    GameData {
        item_data,
        item_autocomplete_data,
        skin_unformatted_names,
        container_data,
        container_autocomplete_data,
    }
}


proof fn lemma_insert_all_keys<V>(m: Map<Seq<char>, V>, entries: Seq<(Seq<char>, V)>, i: int)
    requires
        0 <= i < entries.len(),
    ensures
        insert_all(m, entries).contains_key(entries[i].0),
    decreases entries.len(),
{
    if i < entries.len() - 1 {
        lemma_insert_all_keys(m, entries.drop_last(), i);
    }
}

proof fn lemma_insert_all<V>(m: Map<Seq<char>, V>, entries: Seq<(Seq<char>, V)>)
    ensures
        forall|i: int| 0 <= i < entries.len() ==> #[trigger] insert_all(m, entries).contains_key(entries[i].0),
        forall|i: int|
            0 <= i < entries.len() && (forall|j: int| i < j < entries.len() ==> entries[j].0 != entries[i].0)
                ==> insert_all(m, entries)[#[trigger] entries[i].0] == entries[i].1,
        forall|k: Seq<char>|
            #[trigger] insert_all(m, entries).contains_key(k) ==> m.contains_key(k) || exists|i: int|
                0 <= i < entries.len() && entries[i].0 == k,
    decreases entries.len(),
{
    if entries.len() > 0 {
        let p = entries.drop_last();
        lemma_insert_all(m, p);
        let n = entries.len() - 1;
        assert forall|i: int| 0 <= i < entries.len() implies #[trigger] insert_all(m, entries).contains_key(
            entries[i].0,
        ) by {
            assert(insert_all(m, entries) == insert_all(m, p).insert(entries[n].0, entries[n].1));
            if i < n {
                assert(entries[i] == p[i]);
                assert(insert_all(m, p).contains_key(p[i].0));
            }
        }
        assert forall|i: int|
            0 <= i < entries.len() && (forall|j: int| i < j < entries.len() ==> entries[j].0 != entries[i].0)
                implies insert_all(m, entries)[#[trigger] entries[i].0] == entries[i].1 by {
            assert(insert_all(m, entries) == insert_all(m, p).insert(entries[n].0, entries[n].1));
            if i < n {
                assert(entries[i] == p[i]);
                assert(entries[n].0 != entries[i].0);
                assert forall|j: int| i < j < p.len() implies p[j].0 != p[i].0 by {
                    assert(p[j] == entries[j]);
                }
                assert(insert_all(m, p)[p[i].0] == p[i].1);
            }
        }
        assert forall|k: Seq<char>| #[trigger] insert_all(m, entries).contains_key(k) implies m.contains_key(k)
            || exists|i: int| 0 <= i < entries.len() && entries[i].0 == k by {
            assert(insert_all(m, entries) == insert_all(m, p).insert(entries[n].0, entries[n].1));
            if k != entries[n].0 && !m.contains_key(k) {
                assert(insert_all(m, p).contains_key(k));
                let i = choose|i: int| 0 <= i < p.len() && p[i].0 == k;
                assert(entries[i] == p[i]);
            }
        }
    }
}

/// The container table of the built game data holds every fetched container
/// name and nothing else: each name is a key, mapped to its container when no
/// later container has the same name, and every key is a fetched name.
pub proof fn law_container_table(containers: Seq<(String, Container)>)
    ensures
        forall|i: int|
            0 <= i < containers.len() ==> #[trigger] insert_all(
                Map::empty(),
                container_entries(containers),
            ).contains_key(containers[i].0@),
        forall|i: int|
            0 <= i < containers.len() && (forall|j: int| i < j < containers.len() ==> containers[j].0@ != containers[i].0@)
                ==> insert_all(Map::empty(), container_entries(containers))[#[trigger] containers[i].0@]
                == containers[i].1,
        forall|k: Seq<char>|
            #[trigger] insert_all(Map::empty(), container_entries(containers)).contains_key(k) ==> exists|i: int|
                0 <= i < containers.len() && containers[i].0@ == k,
{
    let ce = container_entries(containers);
    assert forall|i: int| 0 <= i < containers.len() implies #[trigger] insert_all(
        Map::empty(),
        container_entries(containers),
    ).contains_key(containers[i].0@) by {
        lemma_insert_all(Map::<Seq<char>, Container>::empty(), ce);
        assert(ce[i].0 == containers[i].0@);
    }
    assert forall|i: int|
        0 <= i < containers.len() && (forall|j: int| i < j < containers.len() ==> containers[j].0@ != containers[i].0@)
            implies insert_all(Map::empty(), container_entries(containers))[#[trigger] containers[i].0@]
            == containers[i].1 by {
        lemma_insert_all(Map::<Seq<char>, Container>::empty(), ce);
        assert(ce[i] == (containers[i].0@, containers[i].1));
        assert forall|j: int| i < j < ce.len() implies #[trigger] ce[j].0 != ce[i].0 by {
            assert(ce[j].0 == containers[j].0@);
        }
    }
    assert forall|k: Seq<char>|
        #[trigger] insert_all(Map::empty(), container_entries(containers)).contains_key(k) implies exists|i: int|
            0 <= i < containers.len() && containers[i].0@ == k by {
        lemma_insert_all(Map::<Seq<char>, Container>::empty(), ce);
        let i = choose|i: int| 0 <= i < ce.len() && ce[i].0 == k;
        assert(ce[i].0 == containers[i].0@);
    }
}

/// The item table of the built game data holds every fetched sticker name,
/// mapped to its sticker when no later sticker has the same name, and its
/// keys are fetched skin or sticker names.
pub proof fn law_item_table(skins: Seq<(String, Skin)>, stickers: Seq<(String, Sticker)>)
    ensures
        forall|i: int|
            0 <= i < stickers.len() ==> #[trigger] insert_all(Map::empty(), item_entries(skins, stickers)).contains_key(
                stickers[i].0@,
            ),
        forall|i: int|
            0 <= i < stickers.len() && (forall|j: int| i < j < stickers.len() ==> stickers[j].0@ != stickers[i].0@)
                ==> insert_all(Map::empty(), item_entries(skins, stickers))[#[trigger] stickers[i].0@]
                == Item::Sticker(stickers[i].1),
        forall|k: Seq<char>|
            #[trigger] insert_all(Map::empty(), item_entries(skins, stickers)).contains_key(k) ==> (exists|i: int|
                0 <= i < skins.len() && skins[i].0@ == k) || (exists|i: int|
                0 <= i < stickers.len() && stickers[i].0@ == k),
{
    let ie = item_entries(skins, stickers);
    let ns = skins.len() as int;
    assert forall|i: int| 0 <= i < stickers.len() implies #[trigger] insert_all(Map::empty(), item_entries(skins, stickers)).contains_key(
        stickers[i].0@,
    ) by {
        lemma_insert_all(Map::<Seq<char>, Item>::empty(), ie);
        assert(ie[ns + i].0 == stickers[i].0@);
    }
    assert forall|i: int|
        0 <= i < stickers.len() && (forall|j: int| i < j < stickers.len() ==> stickers[j].0@ != stickers[i].0@)
            implies insert_all(Map::empty(), item_entries(skins, stickers))[#[trigger] stickers[i].0@]
            == Item::Sticker(stickers[i].1) by {
        lemma_insert_all(Map::<Seq<char>, Item>::empty(), ie);
        assert(ie[ns + i] == (stickers[i].0@, Item::Sticker(stickers[i].1)));
        assert forall|j: int| ns + i < j < ie.len() implies #[trigger] ie[j].0 != ie[ns + i].0 by {
            assert(ie[j].0 == stickers[j - ns].0@);
        }
    }
    assert forall|k: Seq<char>|
        #[trigger] insert_all(Map::empty(), item_entries(skins, stickers)).contains_key(k) implies (exists|i: int|
            0 <= i < skins.len() && skins[i].0@ == k) || (exists|i: int|
            0 <= i < stickers.len() && stickers[i].0@ == k) by {
        lemma_insert_all(Map::<Seq<char>, Item>::empty(), ie);
        let i = choose|i: int| 0 <= i < ie.len() && ie[i].0 == k;
        if i < ns {
            assert(ie[i].0 == skins[i].0@);
        } else {
            assert(ie[i].0 == stickers[i - ns].0@);
        }
    }
}

/// Every skin name of the built game data names an item, so a skin picked
/// for a quiz can always be looked up.
pub proof fn law_skin_names_are_items(skins: Seq<(String, Skin)>, stickers: Seq<(String, Sticker)>)
    ensures
        forall|i: int|
            0 <= i < skins.len() ==> #[trigger] insert_all(Map::empty(), item_entries(skins, stickers)).contains_key(
                names_of(skins)[i],
            ),
{
    assert forall|i: int| 0 <= i < skins.len() implies #[trigger] insert_all(
        Map::empty(),
        item_entries(skins, stickers),
    ).contains_key(names_of(skins)[i]) by {
        assert(item_entries(skins, stickers)[i].0 == names_of(skins)[i]);
        lemma_insert_all_keys(Map::<Seq<char>, Item>::empty(), item_entries(skins, stickers), i);
    }
}


/// Reading a name back after setting it gives the value set; every other
/// name keeps its value.
pub proof fn law_read_after_write<V>(
    table: Map<Seq<char>, V>,
    key: Seq<char>,
    value: V,
    other: Seq<char>,
)
    requires
        other != key,
    ensures
        table.insert(key, value).contains_key(key),
        table.insert(key, value)[key] == value,
        table.insert(key, value).contains_key(other) == table.contains_key(other),
        table.contains_key(other) ==> table.insert(key, value)[other] == table[other],
{
}
} // verus!

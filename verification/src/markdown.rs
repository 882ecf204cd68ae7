//! The document tree: front matter, blocks and inline runs.
//!
//! Every type here is plain owned data. Each has a view, its mathematical
//! value, in which strings are character sequences and vectors are sequences;
//! the contracts of the parser and the renderer are stated over these views.

use crate::text::is_trimmed;
use vstd::prelude::*;

verus! {

/// An inline span of a block.
#[derive(Debug, PartialEq, Eq)]
pub enum Run {
    Text(String),
    Bold(Vec<Run>),
    Italic(Vec<Run>),
    Link { url: String, inner: Vec<Run> },
    Image { url: String, alt: String },
    Code(String),
    LineBreak,
}

/// The value of a [`Run`].
pub enum RunView {
    Text(Seq<char>),
    Bold(Seq<RunView>),
    Italic(Seq<RunView>),
    Link { url: Seq<char>, inner: Seq<RunView> },
    Image { url: Seq<char>, alt: Seq<char> },
    Code(Seq<char>),
    LineBreak,
}

impl View for Run {
    type V = RunView;

    open spec fn view(&self) -> RunView
        decreases self,
    {
        match self {
            Run::Text(s) => RunView::Text(s@),
            Run::Bold(runs) => RunView::Bold(run_views(runs@)),
            Run::Italic(runs) => RunView::Italic(run_views(runs@)),
            Run::Link { url, inner } => RunView::Link { url: url@, inner: run_views(inner@) },
            Run::Image { url, alt } => RunView::Image { url: url@, alt: alt@ },
            Run::Code(s) => RunView::Code(s@),
            Run::LineBreak => RunView::LineBreak,
        }
    }
}

/// The values of a sequence of runs, element by element.
pub open spec fn run_views(runs: Seq<Run>) -> Seq<RunView>
    decreases runs,
{
    Seq::new(
        runs.len(),
        |i: int|
            if 0 <= i < runs.len() {
                runs[i].view()
            } else {
                RunView::LineBreak
            },
    )
}

impl RunView {
    /// An emphasis holds at least one run, and so for every run inside.
    pub open spec fn well_formed(self) -> bool
        decreases self,
    {
        match self {
            RunView::Bold(inner) => inner.len() >= 1 && runs_well_formed(inner),
            RunView::Italic(inner) => inner.len() >= 1 && runs_well_formed(inner),
            RunView::Link { inner, .. } => runs_well_formed(inner),
            _ => true,
        }
    }
}

/// Every run of the sequence is well formed.
pub open spec fn runs_well_formed(runs: Seq<RunView>) -> bool
    decreases runs,
{
    forall|i: int| 0 <= i < runs.len() ==> (#[trigger] runs[i]).well_formed()
}

/// A cell of a table row.
#[derive(Debug, PartialEq, Eq)]
pub struct TCell(pub Vec<Run>);

impl View for TCell {
    type V = Seq<RunView>;

    open spec fn view(&self) -> Seq<RunView> {
        run_views(self.0@)
    }
}

/// The values of a sequence of cells, element by element.
pub open spec fn cell_views(cells: Seq<TCell>) -> Seq<Seq<RunView>> {
    Seq::new(cells.len(), |i: int| cells[i]@)
}

/// A row of a table.
#[derive(Debug, PartialEq, Eq)]
pub struct TRow {
    pub heading: bool,
    pub cells: Vec<TCell>,
}

/// The value of a [`TRow`].
pub struct TRowView {
    pub heading: bool,
    pub cells: Seq<Seq<RunView>>,
}

impl View for TRow {
    type V = TRowView;

    open spec fn view(&self) -> TRowView {
        TRowView { heading: self.heading, cells: cell_views(self.cells@) }
    }
}

/// The values of a sequence of rows, element by element.
pub open spec fn row_views(rows: Seq<TRow>) -> Seq<TRowView> {
    Seq::new(rows.len(), |i: int| rows[i]@)
}

/// An item of a list: its text and at most one nested block.
#[derive(Debug, PartialEq, Eq)]
pub struct ListItem {
    pub runs: Vec<Run>,
    pub nested: Option<Block>,
}

/// The value of a [`ListItem`].
pub struct ListItemView {
    pub runs: Seq<RunView>,
    pub nested: Option<BlockView>,
}

/// A structural unit of a document.
#[derive(Debug, PartialEq, Eq)]
pub enum Block {
    Heading { level: u8, runs: Vec<Run> },
    Paragraph(Vec<Run>),
    List { ordered: bool, items: Vec<ListItem> },
    Table { thead: TRow, tbody: Vec<TRow> },
    Code { content: String },
    Quote(Vec<Block>),
    HorizontalRule,
}

/// The value of a [`Block`].
pub enum BlockView {
    Heading { level: u8, runs: Seq<RunView> },
    Paragraph(Seq<RunView>),
    List { ordered: bool, items: Seq<ListItemView> },
    Table { thead: TRowView, tbody: Seq<TRowView> },
    Code { content: Seq<char> },
    Quote(Seq<BlockView>),
    HorizontalRule,
}

impl View for ListItem {
    type V = ListItemView;

    open spec fn view(&self) -> ListItemView
        decreases self,
    {
        ListItemView {
            runs: run_views(self.runs@),
            nested: match self.nested {
                Some(block) => Some(block.view()),
                None => None,
            },
        }
    }
}

impl View for Block {
    type V = BlockView;

    open spec fn view(&self) -> BlockView
        decreases self,
    {
        match self {
            Block::Heading { level, runs } => BlockView::Heading {
                level: *level,
                runs: run_views(runs@),
            },
            Block::Paragraph(runs) => BlockView::Paragraph(run_views(runs@)),
            Block::List { ordered, items } => BlockView::List {
                ordered: *ordered,
                items: item_views(items@),
            },
            Block::Table { thead, tbody } => BlockView::Table {
                thead: thead@,
                tbody: row_views(tbody@),
            },
            Block::Code { content } => BlockView::Code { content: content@ },
            Block::Quote(blocks) => BlockView::Quote(block_views(blocks@)),
            Block::HorizontalRule => BlockView::HorizontalRule,
        }
    }
}

/// The values of a sequence of list items, element by element.
pub open spec fn item_views(items: Seq<ListItem>) -> Seq<ListItemView>
    decreases items,
{
    Seq::new(
        items.len(),
        |i: int|
            if 0 <= i < items.len() {
                items[i].view()
            } else {
                ListItemView { runs: Seq::empty(), nested: None }
            },
    )
}

/// The values of a sequence of blocks, element by element.
pub open spec fn block_views(blocks: Seq<Block>) -> Seq<BlockView>
    decreases blocks,
{
    Seq::new(
        blocks.len(),
        |i: int|
            if 0 <= i < blocks.len() {
                blocks[i].view()
            } else {
                BlockView::HorizontalRule
            },
    )
}

impl TRowView {
    /// The row has `width` cells of well-formed runs and is a heading row if
    /// and only if `heading` says so.
    pub open spec fn well_formed(self, width: nat, heading: bool) -> bool {
        &&& self.heading == heading
        &&& self.cells.len() == width
        &&& forall|i: int| 0 <= i < self.cells.len() ==> runs_well_formed(#[trigger] self.cells[i])
    }
}

impl ListItemView {
    /// The runs of the item are well formed, and so is the block under it.
    pub open spec fn well_formed(self) -> bool
        decreases self,
    {
        &&& runs_well_formed(self.runs)
        &&& match self.nested {
            Some(block) => block.well_formed(),
            None => true,
        }
    }
}

impl BlockView {
    /// A heading has a level from 1 to 6, a list has an item, the rows of a
    /// table have as many cells as its header row, and everything inside the
    /// block is well formed.
    pub open spec fn well_formed(self) -> bool
        decreases self,
    {
        match self {
            BlockView::Heading { level, runs } => 1 <= level <= 6 && runs_well_formed(runs),
            BlockView::Paragraph(runs) => runs_well_formed(runs),
            BlockView::List { items, .. } => items.len() >= 1 && items_well_formed(items),
            BlockView::Table { thead, tbody } => thead.well_formed(thead.cells.len(), true)
                && forall|i: int|
                0 <= i < tbody.len() ==> (#[trigger] tbody[i]).well_formed(
                    thead.cells.len(),
                    false,
                ),
            BlockView::Code { .. } => true,
            BlockView::Quote(blocks) => blocks_well_formed(blocks),
            BlockView::HorizontalRule => true,
        }
    }
}

/// Every item of the sequence is well formed.
pub open spec fn items_well_formed(items: Seq<ListItemView>) -> bool
    decreases items,
{
    forall|i: int| 0 <= i < items.len() ==> (#[trigger] items[i]).well_formed()
}

/// Every block of the sequence is well formed.
pub open spec fn blocks_well_formed(blocks: Seq<BlockView>) -> bool
    decreases blocks,
{
    forall|i: int| 0 <= i < blocks.len() ==> (#[trigger] blocks[i]).well_formed()
}

/// The table that a sequence of entries stands for: a later entry replaces an
/// earlier one with the same key.
pub open spec fn table_of(entries: Seq<(Seq<char>, Seq<char>)>) -> Map<Seq<char>, Seq<char>>
    decreases entries.len(),
{
    if entries.len() == 0 {
        Map::empty()
    } else {
        table_of(entries.drop_last()).insert(entries.last().0, entries.last().1)
    }
}

/// No two entries have the same key.
pub open spec fn distinct_keys(entries: Seq<(Seq<char>, Seq<char>)>) -> bool {
    forall|i: int, j: int|
        0 <= i < j < entries.len() ==> (#[trigger] entries[i]).0 != (#[trigger] entries[j]).0
}

/// The index of the first entry with the given key.
pub open spec fn key_index(entries: Seq<(Seq<char>, Seq<char>)>, key: Seq<char>) -> Option<int>
    decreases entries.len(),
{
    if entries.len() == 0 {
        None
    } else {
        match key_index(entries.drop_last(), key) {
            Some(i) => Some(i),
            None => if entries.last().0 == key {
                Some(entries.len() - 1)
            } else {
                None
            },
        }
    }
}

/// The index of a key names the first entry that has it; a key without
/// index is the key of no entry.
pub proof fn lemma_key_index(entries: Seq<(Seq<char>, Seq<char>)>, key: Seq<char>)
    ensures
        match key_index(entries, key) {
            Some(i) => 0 <= i < entries.len() && entries[i].0 == key && forall|j: int|
                0 <= j < i ==> (#[trigger] entries[j]).0 != key,
            None => forall|j: int| 0 <= j < entries.len() ==> (#[trigger] entries[j]).0 != key,
        },
    decreases entries.len(),
{
    if entries.len() > 0 {
        let rest = entries.drop_last();
        lemma_key_index(rest, key);
        match key_index(rest, key) {
            Some(i) => {
                assert(entries[i] == rest[i]);
                assert forall|j: int| 0 <= j < i implies (#[trigger] entries[j]).0 != key by {
                    assert(entries[j] == rest[j]);
                }
            },
            None => {
                assert forall|j: int| 0 <= j < rest.len() implies (#[trigger] entries[j]).0
                    != key by {
                    assert(entries[j] == rest[j]);
                }
            },
        }
    }
}

/// The keys of a table are the keys of its entries.
pub proof fn lemma_table_keys(entries: Seq<(Seq<char>, Seq<char>)>, key: Seq<char>)
    ensures
        table_of(entries).contains_key(key) <==> exists|i: int|
            0 <= i < entries.len() && (#[trigger] entries[i]).0 == key,
        table_of(entries).dom().finite(),
    decreases entries.len(),
{
    if entries.len() > 0 {
        let rest = entries.drop_last();
        lemma_table_keys(rest, key);
        if table_of(entries).contains_key(key) {
            if entries.last().0 == key {
                assert(entries[entries.len() - 1].0 == key);
            } else {
                let i = choose|i: int| 0 <= i < rest.len() && (#[trigger] rest[i]).0 == key;
                assert(entries[i].0 == key);
            }
        }
        if exists|i: int| 0 <= i < entries.len() && (#[trigger] entries[i]).0 == key {
            let i = choose|i: int| 0 <= i < entries.len() && (#[trigger] entries[i]).0 == key;
            if i < rest.len() {
                assert(rest[i].0 == key);
            }
        }
    }
}

/// Where keys are distinct, a table maps the key of each entry to the value
/// of that entry and has as many keys as there are entries.
pub proof fn lemma_table_values(entries: Seq<(Seq<char>, Seq<char>)>)
    requires
        distinct_keys(entries),
    ensures
        forall|i: int|
            0 <= i < entries.len() ==> table_of(entries).contains_key((#[trigger] entries[i]).0)
                && table_of(entries)[entries[i].0] == entries[i].1,
        table_of(entries).len() == entries.len(),
    decreases entries.len(),
{
    if entries.len() > 0 {
        let rest = entries.drop_last();
        assert forall|i: int, j: int| 0 <= i < j < rest.len() implies (#[trigger] rest[i]).0 != (
        #[trigger] rest[j]).0 by {
            assert(rest[i] == entries[i] && rest[j] == entries[j]);
        }
        lemma_table_values(rest);
        lemma_table_keys(rest, entries.last().0);
        if table_of(rest).contains_key(entries.last().0) {
            let last = entries.last().0;
            let i = choose|i: int| 0 <= i < rest.len() && (#[trigger] rest[i]).0 == last;
            assert(rest[i] == entries[i]);
            assert(entries[i].0 != entries[entries.len() - 1].0);
        }
        assert forall|i: int| 0 <= i < entries.len() implies table_of(entries).contains_key(
            (#[trigger] entries[i]).0,
        ) && table_of(entries)[entries[i].0] == entries[i].1 by {
            if i < rest.len() {
                assert(rest[i] == entries[i]);
                assert(entries[i].0 != entries[entries.len() - 1].0);
            }
        }
    }
}

/// The values of a sequence of entries, element by element.
pub open spec fn pairs_of(entries: Seq<(String, String)>) -> Seq<(Seq<char>, Seq<char>)> {
    Seq::new(entries.len(), |i: int| (entries[i].0@, entries[i].1@))
}

/// The key/value table at the head of a document. Keys are unique; the order
/// of the entries carries no meaning.
#[derive(Debug)]
pub struct FrontMatter {
    entries: Vec<(String, String)>,
}

impl FrontMatter {
    /// The entries as pairs of character sequences, in stored order.
    pub closed spec fn pairs(&self) -> Seq<(Seq<char>, Seq<char>)> {
        pairs_of(self.entries@)
    }

    #[verifier::type_invariant]
    spec fn unique_keys(&self) -> bool {
        distinct_keys(self.pairs())
    }

    /// An empty table.
    pub fn new() -> (table: Self)
        ensures
            table@ == Map::<Seq<char>, Seq<char>>::empty(),
            table.pairs() == Seq::<(Seq<char>, Seq<char>)>::empty(),
    {
        let table = FrontMatter { entries: Vec::new() };
        assert(table.pairs() =~= Seq::empty());
        table
    }

    /// The number of keys, which is the number of entries: no two entries
    /// have the same key.
    pub fn len(&self) -> (n: usize)
        ensures
            n == self@.len(),
            n == self.pairs().len(),
            self@.dom().finite(),
            distinct_keys(self.pairs()),
    {
        proof {
            use_type_invariant(self);
            lemma_table_values(self.pairs());
            lemma_table_keys(self.pairs(), Seq::empty());
        }
        self.entries.len()
    }

    /// The index of the entry with the given key.
    fn position(&self, key: &String) -> (index: Option<usize>)
        ensures
            match index {
                Some(i) => key_index(self.pairs(), key@) == Some(i as int),
                None => key_index(self.pairs(), key@) is None,
            },
            match key_index(self.pairs(), key@) {
                Some(i) => 0 <= i < self.pairs().len() && self.pairs()[i].0 == key@,
                None => forall|i: int| 0 <= i < self.pairs().len() ==> self.pairs()[i].0 != key@,
            },
    {
        let mut i: usize = 0;
        while i < self.entries.len()
            invariant
                i <= self.entries.len(),
                forall|j: int| 0 <= j < i ==> self.pairs()[j].0 != key@,
            decreases self.entries.len() - i,
        {
            if self.entries[i].0 == *key {
                proof {
                    lemma_key_index(self.pairs(), key@);
                    assert(self.pairs()[i as int].0 == key@);
                }
                return Some(i);
            }
            i += 1;
        }
        proof {
            lemma_key_index(self.pairs(), key@);
        }
        None
    }

    /// The value stored under `key`.
    pub fn get(&self, key: &str) -> (value: Option<&String>)
        ensures
            match value {
                Some(v) => self@.contains_key(key@) && self@[key@] == v@,
                None => !self@.contains_key(key@),
            },
    {
        proof {
            use_type_invariant(self);
            lemma_table_values(self.pairs());
            lemma_table_keys(self.pairs(), key@);
        }
        let key = String::from_str(key);
        match self.position(&key) {
            Some(i) => Some(&self.entries[i].1),
            None => None,
        }
    }

    /// The key and the value of the entry at `index`, in stored order.
    pub fn entry(&self, index: usize) -> (pair: Option<(&String, &String)>)
        ensures
            match pair {
                Some((key, value)) => index < self.pairs().len() && (key@, value@)
                    == self.pairs()[index as int] && self@.contains_key(key@) && self@[key@]
                    == value@,
                None => index >= self.pairs().len(),
            },
    {
        proof {
            use_type_invariant(self);
            lemma_table_values(self.pairs());
        }
        if index < self.entries.len() {
            assert(self.pairs()[index as int].0 == self.entries@[index as int].0@);
            Some((&self.entries[index].0, &self.entries[index].1))
        } else {
            None
        }
    }

    /// Stores `value` under `key`: in the entry that has the key, if there
    /// is one, and in a new last entry otherwise.
    pub fn insert(&mut self, key: String, value: String)
        ensures
            final(self)@ == old(self)@.insert(key@, value@),
            final(self).pairs() == match key_index(old(self).pairs(), key@) {
                Some(i) => old(self).pairs().update(i, (key@, value@)),
                None => old(self).pairs().push((key@, value@)),
            },
    {
        proof {
            use_type_invariant(&*self);
        }
        let ghost before = self.pairs();
        let found = self.position(&key);
        // The entries leave the table while they change, so that the table
        // is never seen with two entries of one key.
        let mut entries: Vec<(String, String)> = Vec::new();
        std::mem::swap(&mut self.entries, &mut entries);
        match found {
            Some(i) => {
                entries.set(i, (key, value));
                proof {
                    assert(pairs_of(entries@) =~= before.update(i as int, (key@, value@)));
                    lemma_table_update(before, i as int, value@);
                }
            },
            None => {
                entries.push((key, value));
                proof {
                    let after = pairs_of(entries@);
                    assert(after =~= before.push((key@, value@)));
                    assert(after.drop_last() =~= before);
                    assert forall|a: int, b: int| 0 <= a < b < after.len() implies (
                    #[trigger] after[a]).0 != (#[trigger] after[b]).0 by {
                        assert(after[a] == before[a]);
                        if b < before.len() {
                            assert(after[b] == before[b]);
                        }
                    }
                }
            },
        }
        std::mem::swap(&mut self.entries, &mut entries);
    }
}

impl PartialEq for FrontMatter {
    /// Two tables are equal if they map the same keys to the same values,
    /// in whatever order their entries are stored.
    fn eq(&self, other: &Self) -> (equal: bool) {
        let count: usize = self.len();
        if count != other.len() {
            return false;
        }
        let mut i: usize = 0;
        while i < count
            invariant
                i <= count,
                count == self.pairs().len(),
                forall|j: int|
                    0 <= j < i ==> other@.contains_key((#[trigger] self.pairs()[j]).0)
                        && other@[self.pairs()[j].0] == self.pairs()[j].1,
            decreases count - i,
        {
            match self.entry(i) {
                Some((key, value)) => {
                    match other.get(key.as_str()) {
                        Some(found) => {
                            if !(*found == *value) {
                                return false;
                            }
                        },
                        None => {
                            return false;
                        },
                    }
                },
                None => {},
            }
            i += 1;
        }
        proof {
            lemma_same_table(self.pairs(), other@);
        }
        true
    }
}

impl Eq for FrontMatter {

}

impl vstd::std_specs::cmp::PartialEqSpecImpl for FrontMatter {
    open spec fn obeys_eq_spec() -> bool {
        true
    }

    open spec fn eq_spec(&self, other: &Self) -> bool {
        self@ == other@
    }
}

/// A table with as many keys as there are entries with distinct keys, each
/// of which it maps as the entry says, is the table of those entries.
pub proof fn lemma_same_table(
    entries: Seq<(Seq<char>, Seq<char>)>,
    table: Map<Seq<char>, Seq<char>>,
)
    requires
        distinct_keys(entries),
        table.dom().finite(),
        table.len() == entries.len(),
        forall|j: int|
            0 <= j < entries.len() ==> table.contains_key((#[trigger] entries[j]).0)
                && table[entries[j].0] == entries[j].1,
    ensures
        table_of(entries) == table,
{
    let mine = table_of(entries);
    lemma_table_values(entries);
    lemma_table_keys(entries, Seq::empty());
    assert forall|key: Seq<char>| mine.dom().contains(key) implies table.dom().contains(key) by {
        lemma_table_keys(entries, key);
        let j = choose|j: int| 0 <= j < entries.len() && (#[trigger] entries[j]).0 == key;
        assert(table.contains_key(entries[j].0));
    }
    vstd::set_lib::lemma_subset_equality(mine.dom(), table.dom());
    assert forall|key: Seq<char>| mine.contains_key(key) implies mine[key] == table[key] by {
        lemma_table_keys(entries, key);
        let j = choose|j: int| 0 <= j < entries.len() && (#[trigger] entries[j]).0 == key;
        assert(mine[entries[j].0] == entries[j].1);
    }
    assert(mine =~= table);
}

impl View for FrontMatter {
    type V = Map<Seq<char>, Seq<char>>;

    open spec fn view(&self) -> Map<Seq<char>, Seq<char>> {
        table_of(self.pairs())
    }
}

/// Replacing the value of an entry replaces the value under its key, where
/// keys are distinct.
pub proof fn lemma_table_update(
    entries: Seq<(Seq<char>, Seq<char>)>,
    index: int,
    value: Seq<char>,
)
    requires
        distinct_keys(entries),
        0 <= index < entries.len(),
    ensures
        distinct_keys(entries.update(index, (entries[index].0, value))),
        table_of(entries.update(index, (entries[index].0, value))) == table_of(entries).insert(
            entries[index].0,
            value,
        ),
{
    let key = entries[index].0;
    let after = entries.update(index, (key, value));
    assert forall|i: int, j: int| 0 <= i < j < after.len() implies (#[trigger] after[i]).0 != (
    #[trigger] after[j]).0 by {
        assert(after[i].0 == entries[i].0 && after[j].0 == entries[j].0);
    }
    lemma_table_values(entries);
    lemma_table_values(after);
    let left = table_of(after);
    let right = table_of(entries).insert(key, value);
    assert forall|k: Seq<char>| left.contains_key(k) <==> right.contains_key(k) by {
        lemma_table_keys(entries, k);
        lemma_table_keys(after, k);
        if left.contains_key(k) {
            let i = choose|i: int| 0 <= i < after.len() && (#[trigger] after[i]).0 == k;
            assert(entries[i].0 == k);
        }
        if right.contains_key(k) && k != key {
            let i = choose|i: int| 0 <= i < entries.len() && (#[trigger] entries[i]).0 == k;
            assert(after[i].0 == k);
        }
        if k == key {
            assert(after[index].0 == k);
        }
    }
    assert forall|k: Seq<char>| left.contains_key(k) implies left[k] == right[k] by {
        lemma_table_keys(after, k);
        let i = choose|i: int| 0 <= i < after.len() && (#[trigger] after[i]).0 == k;
        assert(left[after[i].0] == after[i].1);
        if i != index {
            assert(entries[i].0 == k);
            assert(table_of(entries)[entries[i].0] == entries[i].1);
        }
    }
    assert(left =~= right);
}

/// A parsed document: its front matter and its blocks in order.
#[derive(Debug, PartialEq, Eq)]
pub struct Markdown {
    pub front_matter: FrontMatter,
    pub content: Vec<Block>,
}

/// The value of a [`Markdown`].
pub struct MarkdownView {
    pub front_matter: Map<Seq<char>, Seq<char>>,
    pub content: Seq<BlockView>,
}

/// The table is finite, and its keys and values neither begin nor end with
/// white space.
pub open spec fn table_well_formed(table: Map<Seq<char>, Seq<char>>) -> bool {
    &&& table.dom().finite()
    &&& forall|key: Seq<char>| #[trigger]
        table.contains_key(key) ==> is_trimmed(key) && is_trimmed(table[key])
}

impl MarkdownView {
    /// The front matter and every block of the document are well formed.
    pub open spec fn well_formed(self) -> bool {
        table_well_formed(self.front_matter) && blocks_well_formed(self.content)
    }
}

impl View for Markdown {
    type V = MarkdownView;

    open spec fn view(&self) -> MarkdownView {
        MarkdownView { front_matter: self.front_matter@, content: block_views(self.content@) }
    }
}

} // verus!

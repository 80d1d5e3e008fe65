use vstd::prelude::*;

verus! {

/// What a tab shows: a text held as it is, or a listing known by its number.
pub enum TabKind {
    Source(String),
    Listing(usize),
}

/// Titles of the entries are pairwise different.
pub open spec fn titles_distinct(s: Seq<(String, TabKind)>) -> bool {
    forall|i: int, j: int|
        0 <= i < s.len() && 0 <= j < s.len() && i != j ==> #[trigger] s[i].0@ != #[trigger] s[j].0@
}

/// The mapping from title to content that a sequence of entries stands for.
pub open spec fn map_of(s: Seq<(String, TabKind)>) -> Map<Seq<char>, TabKind>
    decreases s.len(),
{
    if s.len() == 0 {
        Map::empty()
    } else {
        map_of(s.drop_last()).insert(s.last().0@, s.last().1)
    }
}

/// A title is in the mapping exactly when some entry carries it; with distinct
/// titles each entry's content is what the mapping gives for its title, and
/// the mapping has one key per entry.
pub proof fn lemma_map_of(s: Seq<(String, TabKind)>)
    ensures
        map_of(s).dom().finite(),
        forall|k: Seq<char>|
            #[trigger] map_of(s).contains_key(k) <==> exists|i: int| 0 <= i < s.len() && s[i].0@ == k,
        titles_distinct(s) ==> map_of(s).len() == s.len(),
        titles_distinct(s) ==> forall|i: int| 0 <= i < s.len() ==> #[trigger] map_of(s)[s[i].0@] == s[i].1,
    decreases s.len(),
{
    if s.len() > 0 {
        let t = s.drop_last();
        lemma_map_of(t);
        let last = s.last();
        assert forall|k: Seq<char>|
            #[trigger] map_of(s).contains_key(k) <==> exists|i: int| 0 <= i < s.len() && s[i].0@ == k by {
            if map_of(s).contains_key(k) && k != last.0@ {
                let i = choose|i: int| 0 <= i < t.len() && t[i].0@ == k;
                assert(s[i] == t[i]);
            }
            if exists|i: int| 0 <= i < s.len() && s[i].0@ == k {
                let i = choose|i: int| 0 <= i < s.len() && s[i].0@ == k;
                if i < t.len() {
                    assert(t[i] == s[i]);
                }
            }
        }
        if titles_distinct(s) {
            assert(titles_distinct(t)) by {
                assert forall|i: int, j: int|
                    0 <= i < t.len() && 0 <= j < t.len() && i != j implies #[trigger] t[i].0@
                    != #[trigger] t[j].0@ by {
                    assert(t[i] == s[i] && t[j] == s[j]);
                }
            }
            assert(!map_of(t).contains_key(last.0@)) by {
                if map_of(t).contains_key(last.0@) {
                    let i = choose|i: int| 0 <= i < t.len() && t[i].0@ == last.0@;
                    assert(s[i] == t[i]);
                    assert(s[s.len() - 1].0@ == last.0@);
                }
            }
            assert forall|i: int| 0 <= i < s.len() implies #[trigger] map_of(s)[s[i].0@] == s[i].1 by {
                if i < t.len() {
                    assert(t[i] == s[i]);
                    assert(s[s.len() - 1].0@ == last.0@);
                }
            }
        }
    }
}

/// Taking out an entry takes its title out of the mapping.
pub proof fn lemma_map_of_remove(s: Seq<(String, TabKind)>, i: int)
    requires
        titles_distinct(s),
        0 <= i < s.len(),
    ensures
        titles_distinct(s.remove(i)),
        map_of(s.remove(i)) == map_of(s).remove(s[i].0@),
{
    let r = s.remove(i);
    lemma_map_of(s);
    lemma_map_of(r);
    assert forall|a: int, b: int|
        0 <= a < r.len() && 0 <= b < r.len() && a != b implies #[trigger] r[a].0@
        != #[trigger] r[b].0@ by {
        let sa = if a < i { a } else { a + 1 };
        let sb = if b < i { b } else { b + 1 };
        assert(r[a] == s[sa] && r[b] == s[sb]);
    }
    assert forall|k: Seq<char>|
        #[trigger] map_of(r).contains_key(k) <==> map_of(s).remove(s[i].0@).contains_key(k) by {
        if map_of(r).contains_key(k) {
            let a = choose|a: int| 0 <= a < r.len() && r[a].0@ == k;
            let sa = if a < i { a } else { a + 1 };
            assert(r[a] == s[sa]);
        }
        if map_of(s).remove(s[i].0@).contains_key(k) {
            let j = choose|j: int| 0 <= j < s.len() && s[j].0@ == k;
            let a = if j < i { j } else { j - 1 };
            assert(r[a] == s[j]);
        }
    }
    assert forall|k: Seq<char>| #[trigger] map_of(r).contains_key(k) implies map_of(r)[k]
        == map_of(s)[k] by {
        let a = choose|a: int| 0 <= a < r.len() && r[a].0@ == k;
        let sa = if a < i { a } else { a + 1 };
        assert(r[a] == s[sa]);
    }
    assert(map_of(r) =~= map_of(s).remove(s[i].0@));
}

/// Putting a new content in place of an entry's keeps its title and changes
/// what the mapping gives for it.
pub proof fn lemma_map_of_update(s: Seq<(String, TabKind)>, i: int, e: (String, TabKind))
    requires
        titles_distinct(s),
        0 <= i < s.len(),
        e.0@ == s[i].0@,
    ensures
        titles_distinct(s.update(i, e)),
        map_of(s.update(i, e)) == map_of(s).insert(e.0@, e.1),
{
    let u = s.update(i, e);
    lemma_map_of(s);
    lemma_map_of(u);
    assert forall|a: int, b: int|
        0 <= a < u.len() && 0 <= b < u.len() && a != b implies #[trigger] u[a].0@
        != #[trigger] u[b].0@ by {
        assert(u[a].0@ == s[a].0@ && u[b].0@ == s[b].0@);
    }
    assert forall|k: Seq<char>|
        #[trigger] map_of(u).contains_key(k) <==> map_of(s).insert(e.0@, e.1).contains_key(k) by {
        if map_of(u).contains_key(k) {
            let a = choose|a: int| 0 <= a < u.len() && u[a].0@ == k;
            assert(u[a].0@ == s[a].0@);
        }
        if map_of(s).contains_key(k) {
            let a = choose|a: int| 0 <= a < s.len() && s[a].0@ == k;
            assert(u[a].0@ == s[a].0@);
        }
        assert(u[i] == e);
    }
    assert forall|k: Seq<char>| #[trigger] map_of(u).contains_key(k) implies map_of(u)[k]
        == map_of(s).insert(e.0@, e.1)[k] by {
        let a = choose|a: int| 0 <= a < u.len() && u[a].0@ == k;
        assert(u[a].0@ == s[a].0@);
        if a != i {
            assert(u[a] == s[a]);
        }
    }
    assert(map_of(u) =~= map_of(s).insert(e.0@, e.1));
}

/// The character of a decimal digit.
pub open spec fn digit_char(d: nat) -> char {
    if d == 0 { '0' }
    else if d == 1 { '1' }
    else if d == 2 { '2' }
    else if d == 3 { '3' }
    else if d == 4 { '4' }
    else if d == 5 { '5' }
    else if d == 6 { '6' }
    else if d == 7 { '7' }
    else if d == 8 { '8' }
    else { '9' }
}

/// The decimal digits of `n`, most significant first, with no leading zero.
pub open spec fn decimal_text(n: nat) -> Seq<char>
    decreases n,
{
    if n < 10 {
        seq![digit_char(n)]
    } else {
        decimal_text(n / 10).push(digit_char(n % 10))
    }
}

/// The text a tab shows for its content.
pub open spec fn label_of(kind: TabKind) -> Seq<char> {
    match kind {
        TabKind::Source(text) => text@,
        TabKind::Listing(id) => decimal_text(id as nat),
    }
}

/// Relies on `usize`'s `ToString` (through its `Display`): the number in
/// decimal digits, with no sign and no leading zero.
#[verifier::external_body]
fn listing_number_text(id: usize) -> (r: String)
    ensures
        r@ == decimal_text(id as nat),
{
    id.to_string()
}

/// The open tabs, each with a title of its own and the content it shows.
pub struct Buffers {
    entries: Vec<(String, TabKind)>,
}

impl View for Buffers {
    type V = Map<Seq<char>, TabKind>;

    closed spec fn view(&self) -> Map<Seq<char>, TabKind> {
        map_of(self.entries@)
    }
}

impl Buffers {
    /// No two entries share a title.
    pub closed spec fn wf(&self) -> bool {
        titles_distinct(self.entries@)
    }

    /// The mapping is finite and its size counts the stored entries.
    proof fn lemma_view(&self)
        requires
            self.wf(),
        ensures
            self@.dom().finite(),
            self@.len() == self.entries@.len(),
            forall|k: Seq<char>|
                #[trigger] self@.contains_key(k) <==> exists|i: int|
                    0 <= i < self.entries@.len() && self.entries@[i].0@ == k,
            forall|i: int|
                0 <= i < self.entries@.len() ==> #[trigger] self@[self.entries@[i].0@]
                    == self.entries@[i].1,
    {
        lemma_map_of(self.entries@);
    }

    /// A set of tabs with none open.
    pub fn new() -> (r: Buffers)
        ensures
            r.wf(),
            r@ == Map::<Seq<char>, TabKind>::empty(),
    {
        Buffers { entries: Vec::new() }
    }

    /// The number of open tabs.
    pub fn len(&self) -> (r: usize)
        requires
            self.wf(),
        ensures
            r == self@.len(),
    {
        proof {
            self.lemma_view();
        }
        self.entries.len()
    }

    /// Where the entry titled `title` stands, if any does.
    fn position(&self, title: &String) -> (r: Option<usize>)
        requires
            self.wf(),
        ensures
            r matches Some(i) ==> i < self.entries@.len() && self.entries@[i as int].0@ == title@,
            r is None ==> !self@.contains_key(title@),
    {
        proof {
            self.lemma_view();
        }
        let n = self.entries.len();
        let mut i: usize = 0;
        while i < n
            invariant
                n == self.entries@.len(),
                i <= n,
                forall|j: int| 0 <= j < i ==> #[trigger] self.entries@[j].0@ != title@,
            decreases n - i,
        {
            if self.entries[i].0.eq(title) {
                return Some(i);
            }
            i = i + 1;
        }
        None
    }

    /// Whether a tab titled `title` is open.
    pub fn contains(&self, title: &String) -> (r: bool)
        requires
            self.wf(),
        ensures
            r == self@.contains_key(title@),
    {
        proof {
            self.lemma_view();
        }
        self.position(title).is_some()
    }

    /// Opens a tab titled `title` showing `kind`, in place of the content of
    /// a tab of that title if one is open.
    pub fn insert(&mut self, title: String, kind: TabKind)
        requires
            old(self).wf(),
        ensures
            final(self).wf(),
            final(self)@ == old(self)@.insert(title@, kind),
    {
        proof {
            self.lemma_view();
        }
        match self.position(&title) {
            Some(i) => {
                proof {
                    lemma_map_of_update(self.entries@, i as int, (title, kind));
                }
                self.entries.remove(i);
                self.entries.insert(i, (title, kind));
                proof {
                    assert(self.entries@ =~= old(self).entries@.update(i as int, (title, kind)));
                }
            },
            None => {
                proof {
                    assert(titles_distinct(self.entries@.push((title, kind)))) by {
                        let s = self.entries@.push((title, kind));
                        assert forall|a: int, b: int|
                            0 <= a < s.len() && 0 <= b < s.len() && a != b implies #[trigger] s[a].0@
                            != #[trigger] s[b].0@ by {
                            if a < s.len() - 1 && b < s.len() - 1 {
                                assert(s[a] == self.entries@[a] && s[b] == self.entries@[b]);
                            } else if a < s.len() - 1 {
                                assert(s[a] == self.entries@[a]);
                            } else {
                                assert(s[b] == self.entries@[b]);
                            }
                        }
                    }
                    assert(self.entries@.push((title, kind)).drop_last() =~= self.entries@);
                }
                self.entries.push((title, kind));
            },
        }
    }

    /// Whether more than one tab is open, or none: only then may a tab be
    /// closed or dragged.
    pub fn has_multiple_tabs(&self) -> (r: bool)
        requires
            self.wf(),
        ensures
            r == (self@.len() != 1),
    {
        proof {
            self.lemma_view();
        }
        self.entries.len() != 1
    }

    /// Closes the tab titled `title`, unless it is the only one open: then it
    /// refuses and nothing changes.
    pub fn on_close(&mut self, title: &String) -> (r: bool)
        requires
            old(self).wf(),
        ensures
            final(self).wf(),
            r == (old(self)@.len() != 1),
            r ==> final(self)@ == old(self)@.remove(title@),
            !r ==> final(self)@ == old(self)@,
    {
        proof {
            self.lemma_view();
        }
        if self.entries.len() == 1 {
            false
        } else {
            match self.position(title) {
                Some(i) => {
                    proof {
                        lemma_map_of_remove(self.entries@, i as int);
                    }
                    self.entries.remove(i);
                },
                None => {
                    proof {
                        assert(self@.remove(title@) =~= self@);
                    }
                },
            }
            true
        }
    }

    /// The text that the tab titled `title` shows, if such a tab is open.
    pub fn tab_label(&self, title: &String) -> (r: Option<String>)
        requires
            self.wf(),
        ensures
            !self@.contains_key(title@) ==> r is None,
            self@.contains_key(title@) ==> (r matches Some(t) && t@ == label_of(self@[title@])),
    {
        proof {
            self.lemma_view();
        }
        match self.position(title) {
            Some(i) => match &self.entries[i].1 {
                TabKind::Source(text) => Some(text.clone()),
                TabKind::Listing(id) => Some(listing_number_text(*id)),
            },
            None => None,
        }
    }
}

} // verus!

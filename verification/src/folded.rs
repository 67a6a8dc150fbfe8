//! How often each stack was seen.

use crate::text::{decimal, push_decimal, same_text};
use vstd::prelude::*;
use vstd::string::*;
use vstd::utf8::{encode_utf8, encode_utf8_decode_utf8};

verus! {

/// `a` comes before `b` byte by byte, a prefix before what it is a prefix of.
pub open spec fn bytes_before(a: Seq<u8>, b: Seq<u8>) -> bool
    decreases a.len(),
{
    if b.len() == 0 {
        false
    } else if a.len() == 0 {
        true
    } else {
        a[0] < b[0] || a[0] == b[0] && bytes_before(a.drop_first(), b.drop_first())
    }
}

/// The order in which strings are sorted: by the bytes of their UTF-8 form.
pub open spec fn text_before(a: Seq<char>, b: Seq<char>) -> bool {
    bytes_before(encode_utf8(a), encode_utf8(b))
}

proof fn bytes_before_transitive(a: Seq<u8>, b: Seq<u8>, c: Seq<u8>)
    requires
        bytes_before(a, b),
        bytes_before(b, c),
    ensures
        bytes_before(a, c),
    decreases a.len(),
{
    if a.len() > 0 && a[0] == b[0] && b[0] == c[0] {
        bytes_before_transitive(a.drop_first(), b.drop_first(), c.drop_first());
    }
}

proof fn bytes_before_irreflexive(a: Seq<u8>)
    ensures
        !bytes_before(a, a),
    decreases a.len(),
{
    if a.len() > 0 {
        bytes_before_irreflexive(a.drop_first());
    }
}

proof fn bytes_before_total(a: Seq<u8>, b: Seq<u8>)
    ensures
        bytes_before(a, b) || bytes_before(b, a) || a == b,
    decreases a.len(),
{
    if a.len() > 0 && b.len() > 0 && a[0] == b[0] {
        bytes_before_total(a.drop_first(), b.drop_first());
        if a.drop_first() == b.drop_first() {
            assert(a =~= seq![a[0]] + a.drop_first());
            assert(b =~= seq![b[0]] + b.drop_first());
        }
    } else if a.len() == 0 && b.len() == 0 {
        assert(a =~= b);
    }
}

/// The order of texts is a strict total order.
proof fn text_order(a: Seq<char>, b: Seq<char>, c: Seq<char>)
    ensures
        !text_before(a, a),
        text_before(a, b) || text_before(b, a) || a == b,
        text_before(a, b) && text_before(b, c) ==> text_before(a, c),
{
    bytes_before_irreflexive(encode_utf8(a));
    bytes_before_total(encode_utf8(a), encode_utf8(b));
    encode_utf8_decode_utf8(a);
    encode_utf8_decode_utf8(b);
    if text_before(a, b) && text_before(b, c) {
        bytes_before_transitive(encode_utf8(a), encode_utf8(b), encode_utf8(c));
    }
}

proof fn bytes_before_from(a: Seq<u8>, b: Seq<u8>, n: int)
    requires
        0 <= n <= a.len(),
        n <= b.len(),
        a.take(n) == b.take(n),
    ensures
        bytes_before(a, b) == bytes_before(a.skip(n), b.skip(n)),
    decreases n,
{
    if n > 0 {
        assert(a[0] == a.take(n)[0]);
        assert(b[0] == b.take(n)[0]);
        assert(a.drop_first().take(n - 1) =~= a.take(n).drop_first());
        assert(b.drop_first().take(n - 1) =~= b.take(n).drop_first());
        bytes_before_from(a.drop_first(), b.drop_first(), n - 1);
        assert(a.drop_first().skip(n - 1) =~= a.skip(n));
        assert(b.drop_first().skip(n - 1) =~= b.skip(n));
    } else {
        assert(a.skip(0) =~= a);
        assert(b.skip(0) =~= b);
    }
}

/// `a` is sorted before `b`.
pub fn sorts_before(a: &str, b: &str) -> (r: bool)
    ensures
        r == text_before(a@, b@),
{
    let x = a.as_bytes();
    let y = b.as_bytes();
    let mut i: usize = 0;
    while i < x.len() && i < y.len() && x[i] == y[i]
        invariant
            i <= x@.len(),
            i <= y@.len(),
            x@.take(i as int) == y@.take(i as int),
        decreases x@.len() - i,
    {
        i += 1;
        assert(x@.take(i as int) =~= x@.take(i - 1).push(x@[i - 1]));
        assert(y@.take(i as int) =~= y@.take(i - 1).push(y@[i - 1]));
    }
    proof {
        bytes_before_from(x@, y@, i as int);
    }
    if i >= y.len() {
        false
    } else if i >= x.len() {
        true
    } else {
        assert(x@.skip(i as int)[0] == x@[i as int]);
        assert(y@.skip(i as int)[0] == y@[i as int]);
        x[i] < y[i]
    }
}

/// Stacks and how often each was seen. A stack that was never seen is not there.
pub struct FoldedStacks {
    /// Sorted by stack.
    entries: Vec<(String, u64)>,
}

/// The entries are sorted and no two are for one stack.
pub open spec fn strictly_sorted(entries: Seq<(Seq<char>, u64)>) -> bool {
    forall|i: int, j: int|
        0 <= i < j < entries.len() ==> text_before(
            (#[trigger] entries[i]).0,
            (#[trigger] entries[j]).0,
        )
}

/// The line of an entry: the stack, a blank, how often it was seen, a line end.
pub open spec fn entry_line(entry: (Seq<char>, u64)) -> Seq<char> {
    entry.0 + " "@ + decimal(entry.1 as nat) + "\n"@
}

/// The lines of entries.
pub open spec fn entry_lines(entries: Seq<(Seq<char>, u64)>) -> Seq<char>
    decreases entries.len(),
{
    if entries.len() == 0 {
        seq![]
    } else {
        entry_lines(entries.drop_last()) + entry_line(entries.last())
    }
}

impl FoldedStacks {
    /// The stacks in the order in which they are sorted, each with how often it was
    /// seen.
    pub closed spec fn sorted(&self) -> Seq<(Seq<char>, u64)> {
        self.entries@.map_values(|e: (String, u64)| (e.0@, e.1))
    }

    /// The stacks are sorted, no two are the same and each was seen.
    pub open spec fn wf(&self) -> bool {
        &&& strictly_sorted(self.sorted())
        &&& forall|i: int| 0 <= i < self.sorted().len() ==> (#[trigger] self.sorted()[i]).1 > 0
    }

    /// `stack` was seen.
    pub open spec fn has(&self, stack: Seq<char>) -> bool {
        exists|i: int| 0 <= i < self.sorted().len() && (#[trigger] self.sorted()[i]).0 == stack
    }

    /// How often `stack` was seen.
    pub open spec fn count(&self, stack: Seq<char>) -> u64 {
        if self.has(stack) {
            let i = choose|i: int|
                0 <= i < self.sorted().len() && (#[trigger] self.sorted()[i]).0 == stack;
            self.sorted()[i].1
        } else {
            0
        }
    }

    /// No stack has been seen.
    pub open spec fn empty(&self) -> bool {
        self.sorted() == Seq::<(Seq<char>, u64)>::empty()
    }

    /// Any one stack can be seen `n` times more before its counter is full.
    pub open spec fn room_for(&self, n: nat) -> bool {
        &&& n <= u64::MAX
        &&& forall|i: int|
            0 <= i < self.sorted().len() ==> (#[trigger] self.sorted()[i]).1 + n <= u64::MAX
    }

    proof fn entry_is_the_count(&self, i: int)
        requires
            self.wf(),
            0 <= i < self.sorted().len(),
        ensures
            self.has(self.sorted()[i].0),
            self.count(self.sorted()[i].0) == self.sorted()[i].1,
    {
        let stack = self.sorted()[i].0;
        assert(self.has(stack));
        let j = choose|j: int|
            0 <= j < self.sorted().len() && (#[trigger] self.sorted()[j]).0 == stack;
        text_order(stack, stack, stack);
    }

    /// No stacks.
    pub fn new() -> (r: Self)
        ensures
            r.wf(),
            r.empty(),
            forall|s: Seq<char>| !r.has(s) && r.count(s) == 0,
    {
        let r = FoldedStacks { entries: Vec::new() };
        assert(r.sorted() =~= seq![]);
        r
    }

    /// How many stacks there are.
    pub fn len(&self) -> (r: usize)
        ensures
            r == self.sorted().len(),
    {
        self.entries.len()
    }

    /// No stack has been seen.
    pub fn is_empty(&self) -> (r: bool)
        ensures
            r == self.empty(),
    {
        let r = self.entries.len() == 0;
        assert(self.sorted().len() == self.entries@.len());
        assert(r ==> self.sorted() =~= Seq::<(Seq<char>, u64)>::empty());
        r
    }

    /// Where `stack` stands, or would stand, among the sorted stacks.
    fn position(&self, stack: &str) -> (at: usize)
        requires
            self.wf(),
        ensures
            at <= self.sorted().len(),
            self.sorted().len() == self.entries@.len(),
            forall|j: int| 0 <= j < at ==> text_before((#[trigger] self.sorted()[j]).0, stack@),
            forall|j: int|
                at <= j < self.sorted().len() ==> !text_before(
                    (#[trigger] self.sorted()[j]).0,
                    stack@,
                ),
    {
        let mut low: usize = 0;
        let mut high: usize = self.entries.len();
        while low < high
            invariant
                self.wf(),
                self.sorted().len() == self.entries@.len(),
                low <= high <= self.entries@.len(),
                forall|j: int|
                    0 <= j < low ==> text_before((#[trigger] self.sorted()[j]).0, stack@),
                forall|j: int|
                    high <= j < self.sorted().len() ==> !text_before(
                        (#[trigger] self.sorted()[j]).0,
                        stack@,
                    ),
            decreases high - low,
        {
            let mid: usize = low + (high - low) / 2;
            let ghost here = self.sorted()[mid as int].0;
            if sorts_before(self.entries[mid].0.as_str(), stack) {
                assert forall|j: int| 0 <= j <= mid implies text_before(
                    (#[trigger] self.sorted()[j]).0,
                    stack@,
                ) by {
                    text_order(self.sorted()[j].0, here, stack@);
                    if j < mid {
                        assert(text_before(self.sorted()[j].0, self.sorted()[mid as int].0));
                    }
                }
                low = mid + 1;
            } else {
                assert forall|j: int| mid <= j < self.sorted().len() implies !text_before(
                    (#[trigger] self.sorted()[j]).0,
                    stack@,
                ) by {
                    text_order(here, self.sorted()[j].0, stack@);
                    if mid < j {
                        assert(text_before(self.sorted()[mid as int].0, self.sorted()[j].0));
                    }
                }
                high = mid;
            }
        }
        low
    }

    /// How often `stack` was seen, if it was.
    pub fn get(&self, stack: &str) -> (r: Option<u64>)
        requires
            self.wf(),
        ensures
            r == if self.has(stack@) {
                Some(self.count(stack@))
            } else {
                None
            },
    {
        let at: usize = self.position(stack);
        if at < self.entries.len() && same_text(self.entries[at].0.as_str(), stack) {
            proof {
                assert(self.sorted()[at as int].0 == stack@);
                self.entry_is_the_count(at as int);
            }
            return Some(self.entries[at].1);
        }
        proof {
            assert forall|j: int| 0 <= j < self.sorted().len() implies (
            #[trigger] self.sorted()[j]).0 != stack@ by {
                text_order(stack@, stack@, stack@);
                if at < j && self.sorted()[j].0 == stack@ {
                    assert(text_before(self.sorted()[at as int].0, self.sorted()[j].0));
                }
                if j == at {
                    assert(self.entries@[at as int].0@ == self.sorted()[at as int].0);
                }
            }
        }
        None
    }

    /// The stacks, sorted.
    pub fn stacks(&self) -> (r: Vec<String>)
        ensures
            r@.len() == self.sorted().len(),
            forall|i: int| 0 <= i < r@.len() ==> (#[trigger] r@[i])@ == self.sorted()[i].0,
    {
        let mut r: Vec<String> = Vec::new();
        for i in 0..self.entries.len()
            invariant
                r@.len() == i,
                forall|j: int| 0 <= j < i ==> (#[trigger] r@[j])@ == self.sorted()[j].0,
        {
            r.push(self.entries[i].0.clone());
        }
        r
    }

    /// Any one stack can be seen `n` times more before its counter is full.
    pub fn can_count(&self, n: u64) -> (r: bool)
        ensures
            r == self.room_for(n as nat),
    {
        for i in 0..self.entries.len()
            invariant
                forall|j: int| 0 <= j < i ==> (#[trigger] self.sorted()[j]).1 + n <= u64::MAX,
        {
            if self.entries[i].1 > u64::MAX - n {
                assert(self.sorted()[i as int].1 + n > u64::MAX);
                return false;
            }
        }
        true
    }

    /// The stacks, sorted, one per line with how often each was seen.
    pub fn render(&self) -> (r: String)
        ensures
            r@ == entry_lines(self.sorted()),
    {
        let mut out = String::new();
        for i in 0..self.entries.len()
            invariant
                out@ == entry_lines(self.sorted().take(i as int)),
        {
            let ghost before = out@;
            out.append(self.entries[i].0.as_str());
            out.append(" ");
            push_decimal(&mut out, self.entries[i].1);
            out.append("\n");
            assert(self.sorted().take(i + 1).drop_last() =~= self.sorted().take(i as int));
            assert(out@ =~= before + entry_line(self.sorted()[i as int]));
        }
        assert(self.sorted().take(self.entries@.len() as int) =~= self.sorted());
        out
    }

    /// A stack that has room was not seen too often.
    pub(crate) proof fn room_bounds_count(&self, n: nat, stack: Seq<char>)
        requires
            self.wf(),
            self.room_for(n),
        ensures
            self.count(stack) + n <= u64::MAX,
    {
        if self.has(stack) {
            let i = choose|i: int|
                0 <= i < self.sorted().len() && (#[trigger] self.sorted()[i]).0 == stack;
            self.entry_is_the_count(i);
        }
    }

    /// Counts `stack` once more.
    pub fn add(&mut self, stack: String)
        requires
            old(self).wf(),
            old(self).count(stack@) < u64::MAX,
        ensures
            final(self).wf(),
            forall|s: Seq<char>| #[trigger]
                final(self).count(s) == old(self).count(s) + if s == stack@ {
                    1int
                } else {
                    0
                },
            forall|s: Seq<char>| #[trigger] final(self).has(s) <==> old(self).has(s) || s == stack@,
            forall|n: nat| #[trigger] old(self).room_for(n + 1) ==> final(self).room_for(n),
    {
        let at: usize = self.position(stack.as_str());
        let ghost before = *self;
        let ghost was = self.sorted();
        let ghost text = stack@;
        if at < self.entries.len() && same_text(self.entries[at].0.as_str(), stack.as_str()) {
            proof {
                assert(was[at as int].0 == text);
                before.entry_is_the_count(at as int);
            }
            let n: u64 = self.entries[at].1;
            self.entries[at].1 = n + 1;
            proof {
                assert(self.sorted() =~= was.update(at as int, (text, (n + 1) as u64)));
                self.counts_after(&before, text, at as int, false);
            }
        } else {
            self.entries.insert(at, (stack, 1));
            proof {
                assert(self.sorted() =~= was.insert(at as int, (text, 1)));
                if at < was.len() {
                    text_order(was[at as int].0, text, text);
                }
                self.counts_after(&before, text, at as int, true);
            }
        }
    }

    /// What counting `text` once more at position `at` comes to.
    proof fn counts_after(&self, before: &Self, text: Seq<char>, at: int, new: bool)
        requires
            before.wf(),
            forall|j: int| 0 <= j < at ==> text_before((#[trigger] before.sorted()[j]).0, text),
            before.count(text) < u64::MAX,
            new ==> {
                &&& 0 <= at <= before.sorted().len()
                &&& self.sorted() == before.sorted().insert(at, (text, 1))
                &&& at < before.sorted().len() ==> text_before(text, before.sorted()[at].0)
            },
            !new ==> {
                &&& 0 <= at < before.sorted().len()
                &&& before.sorted()[at].0 == text
                &&& self.sorted() == before.sorted().update(
                    at,
                    (text, (before.sorted()[at].1 + 1) as u64),
                )
                &&& before.count(text) == before.sorted()[at].1
            },
        ensures
            self.wf(),
            forall|s: Seq<char>| #[trigger]
                self.count(s) == before.count(s) + if s == text {
                    1int
                } else {
                    0
                },
            forall|s: Seq<char>| #[trigger] self.has(s) <==> before.has(s) || s == text,
            forall|n: nat| #[trigger] before.room_for(n + 1) ==> self.room_for(n),
    {
        let was = before.sorted();
        let now = self.sorted();
        text_order(text, text, text);
        if new {
            assert forall|j: int| at <= j < was.len() implies text_before(
                text,
                (#[trigger] was[j]).0,
            ) by {
                if j > at {
                    text_order(text, was[at].0, was[j].0);
                    assert(text_before(was[at].0, was[j].0));
                }
            }
            assert(!before.has(text));
        }
        assert(self.wf());
        assert forall|s: Seq<char>| #[trigger]
            self.count(s) == before.count(s) + if s == text {
                1int
            } else {
                0
            } by {
            if before.has(s) {
                let i = choose|i: int| 0 <= i < was.len() && (#[trigger] was[i]).0 == s;
                let k = if new && i >= at {
                    i + 1
                } else {
                    i
                };
                assert(now[k].0 == s);
                self.entry_is_the_count(k);
                before.entry_is_the_count(i);
            } else if s == text {
                assert(now[at].0 == s);
                self.entry_is_the_count(at);
            } else if self.has(s) {
                let k = choose|k: int| 0 <= k < now.len() && (#[trigger] now[k]).0 == s;
                let i = if new && k > at {
                    k - 1
                } else {
                    k
                };
                assert(was[i].0 == s);
            }
        }
        assert forall|s: Seq<char>| #[trigger] self.has(s) <==> before.has(s) || s == text by {
            if before.has(s) {
                let i = choose|i: int| 0 <= i < was.len() && (#[trigger] was[i]).0 == s;
                let k = if new && i >= at {
                    i + 1
                } else {
                    i
                };
                assert(now[k].0 == s);
            }
            assert(now[at].0 == text);
            if self.has(s) && s != text {
                let k = choose|k: int| 0 <= k < now.len() && (#[trigger] now[k]).0 == s;
                let i = if new && k > at {
                    k - 1
                } else {
                    k
                };
                assert(was[i].0 == s);
            }
        }
        assert forall|n: nat| #[trigger] before.room_for(n + 1) implies self.room_for(n) by {
            assert forall|i: int| 0 <= i < now.len() implies (#[trigger] now[i]).1 + n
                <= u64::MAX by {
                if new && i > at {
                    assert(now[i] == was[i - 1]);
                }
            }
        }
    }
}

proof fn sorted_entries_are_determined(x: Seq<(Seq<char>, u64)>, y: Seq<(Seq<char>, u64)>)
    requires
        strictly_sorted(x),
        strictly_sorted(y),
        forall|e: (Seq<char>, u64)| #[trigger] x.contains(e) <==> y.contains(e),
    ensures
        x == y,
    decreases x.len(),
{
    if x.len() == 0 {
        if y.len() > 0 {
            assert(y.contains(y[0]) && x.contains(y[0]));
        }
        assert(x =~= y);
    } else {
        assert(x.contains(x.last()));
        let j = choose|j: int| 0 <= j < y.len() && y[j] == x.last();
        assert(y.contains(y.last()) && x.contains(y.last()));
        let i = choose|i: int| 0 <= i < x.len() && x[i] == y.last();
        text_order(x.last().0, y.last().0, x.last().0);
        text_order(y.last().0, x.last().0, y.last().0);
        assert(x.last() == y.last());
        let (a, b) = (x.drop_last(), y.drop_last());
        assert forall|e: (Seq<char>, u64)| #[trigger] a.contains(e) <==> b.contains(e) by {
            text_order(x.last().0, x.last().0, x.last().0);
            if a.contains(e) {
                let k = choose|k: int| 0 <= k < a.len() && a[k] == e;
                assert(x[k] == e);
                assert(x.contains(e));
                let l = choose|l: int| 0 <= l < y.len() && y[l] == e;
                assert(text_before(x[k].0, x.last().0));
                assert(b[l] == e);
            }
            if b.contains(e) {
                let k = choose|k: int| 0 <= k < b.len() && b[k] == e;
                assert(y[k] == e);
                assert(y.contains(e) && x.contains(e));
                let l = choose|l: int| 0 <= l < x.len() && x[l] == e;
                assert(text_before(y[k].0, y.last().0));
                assert(a[l] == e);
            }
        }
        sorted_entries_are_determined(a, b);
        assert(x =~= a.push(x.last()));
        assert(y =~= b.push(y.last()));
    }
}

/// The sorted stacks, and so what is written of them, depend only on how often each
/// stack was seen, not on the order in which they were.
pub proof fn counts_determine_the_lines(a: &FoldedStacks, b: &FoldedStacks)
    requires
        a.wf(),
        b.wf(),
        forall|s: Seq<char>| #[trigger] a.count(s) == b.count(s),
    ensures
        a.sorted() == b.sorted(),
        entry_lines(a.sorted()) == entry_lines(b.sorted()),
{
    let (x, y) = (a.sorted(), b.sorted());
    assert forall|e: (Seq<char>, u64)| #[trigger] x.contains(e) <==> y.contains(e) by {
        counts_find_entries(a, b, e);
        counts_find_entries(b, a, e);
    }
    sorted_entries_are_determined(x, y);
}

proof fn counts_find_entries(a: &FoldedStacks, b: &FoldedStacks, e: (Seq<char>, u64))
    requires
        a.wf(),
        b.wf(),
        a.count(e.0) == b.count(e.0),
    ensures
        a.sorted().contains(e) ==> b.sorted().contains(e),
{
    if a.sorted().contains(e) {
        let i = choose|i: int| 0 <= i < a.sorted().len() && a.sorted()[i] == e;
        a.entry_is_the_count(i);
        assert(b.has(e.0));
        let j = choose|j: int|
            0 <= j < b.sorted().len() && (#[trigger] b.sorted()[j]).0 == e.0;
        b.entry_is_the_count(j);
        assert(b.sorted()[j] == e);
    }
}

/// A text is sorted before another exactly if it is a true prefix of it, in bytes, or has
/// the smaller byte where they first differ.
pub proof fn texts_are_sorted_by_their_first_difference(a: Seq<char>, b: Seq<char>)
    ensures
        text_before(a, b) <==> exists|n: int|
            {
                &&& 0 <= n < encode_utf8(b).len()
                &&& n <= encode_utf8(a).len()
                &&& encode_utf8(a).take(n) == #[trigger] encode_utf8(b).take(n)
                &&& n < encode_utf8(a).len() ==> encode_utf8(a)[n] < encode_utf8(b)[n]
            },
{
    let (x, y) = (encode_utf8(a), encode_utf8(b));
    if text_before(a, b) {
        let n = first_difference(x, y);
        assert(x.take(n) == y.take(n));
    }
    if exists|n: int|
        {
            &&& 0 <= n < y.len()
            &&& n <= x.len()
            &&& x.take(n) == #[trigger] y.take(n)
            &&& n < x.len() ==> x[n] < y[n]
        } {
        let n = choose|n: int|
            {
                &&& 0 <= n < y.len()
                &&& n <= x.len()
                &&& x.take(n) == #[trigger] y.take(n)
                &&& n < x.len() ==> x[n] < y[n]
            };
        bytes_before_from(x, y, n);
        assert(y.skip(n)[0] == y[n]);
        if n < x.len() {
            assert(x.skip(n)[0] == x[n]);
        }
    }
}

proof fn first_difference(x: Seq<u8>, y: Seq<u8>) -> (n: int)
    requires
        bytes_before(x, y),
    ensures
        0 <= n < y.len(),
        n <= x.len(),
        x.take(n) == y.take(n),
        n < x.len() ==> x[n] < y[n],
    decreases x.len(),
{
    if x.len() > 0 && x[0] == y[0] {
        let m = first_difference(x.drop_first(), y.drop_first());
        let n = m + 1;
        assert(x.take(n) =~= seq![x[0]] + x.drop_first().take(m));
        assert(y.take(n) =~= seq![y[0]] + y.drop_first().take(m));
        n
    } else {
        assert(x.take(0) =~= y.take(0));
        0
    }
}

/// The stacks are written one behind the other, each with a blank, how often it was seen,
/// and a line end.
pub proof fn stacks_are_written_line_by_line(
    stack: Seq<char>,
    n: u64,
    a: Seq<(Seq<char>, u64)>,
    b: Seq<(Seq<char>, u64)>,
)
    ensures
        entry_lines(seq![]) == Seq::<char>::empty(),
        entry_lines(seq![(stack, n)]) == stack + seq![' '] + decimal(n as nat) + seq!['\n'],
        entry_lines(a + b) == entry_lines(a) + entry_lines(b),
    decreases b.len(),
{
    reveal_strlit(" ");
    reveal_strlit("\n");
    assert(" "@ =~= seq![' ']);
    assert("\n"@ =~= seq!['\n']);
    let one = seq![(stack, n)];
    assert(one.drop_last() =~= Seq::<(Seq<char>, u64)>::empty());
    assert(entry_lines(one.drop_last()) =~= Seq::<char>::empty());
    assert(entry_lines(one) =~= stack + seq![' '] + decimal(n as nat) + seq!['\n']);
    if b.len() > 0 {
        stacks_are_written_line_by_line(stack, n, a, b.drop_last());
        assert((a + b).drop_last() =~= a + b.drop_last());
        assert(entry_lines(a + b) =~= entry_lines(a) + entry_lines(b));
    } else {
        assert(a + b =~= a);
        assert(entry_lines(a + b) =~= entry_lines(a) + entry_lines(b));
    }
}

/// How often a stack was seen is what stands behind it in the sorted list, and 0 for one
/// that is not in it.
pub proof fn count_is_what_stands_behind_the_stack(f: &FoldedStacks, i: int, stack: Seq<char>)
    requires
        f.wf(),
    ensures
        0 <= i < f.sorted().len() ==> f.count(f.sorted()[i].0) == f.sorted()[i].1,
        (forall|j: int| 0 <= j < f.sorted().len() ==> (#[trigger] f.sorted()[j]).0 != stack)
            ==> f.count(stack) == 0,
{
    if 0 <= i < f.sorted().len() {
        f.entry_is_the_count(i);
    }
}

} // verus!

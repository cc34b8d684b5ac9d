//! Generational IDs, independent of any value storage.
use core::cmp::Ordering;
use core::hash::{Hash, Hasher};
use core::marker::PhantomData;
use vstd::prelude::*;
use vstd::std_specs::cmp::{PartialEqSpec, PartialEqSpecImpl, PartialOrdSpec, PartialOrdSpecImpl};

verus! {

/// A generational ID with a phantom type parameter `T`.
///
/// The `generation` counter is bumped each time a raw `id` slot is
/// recycled, preventing stale handles from accidentally matching a newly
/// allocated ID (ABA problem). The phantom `T` makes IDs for different
/// domains incompatible at the type level, even if their raw
/// `id`/`generation` values collide.
#[derive(Debug, Ord)]
pub struct GenId<T> {
    id: u32,
    generation: u32,
    _marker: PhantomData<T>,
}

/// The model of a `GenId`: its raw slot and its generation.
impl<T> View for GenId<T> {
    type V = (u32, u32);

    closed spec fn view(&self) -> (u32, u32) {
        (self.id, self.generation)
    }
}

/// `generation + 1`, wrapping around at `u32::MAX`.
pub open spec fn next_generation_of(generation: u32) -> u32 {
    if generation == u32::MAX {
        0
    } else {
        (generation + 1) as u32
    }
}

/// The ID a recycled `id` comes back as: same slot, next generation.
pub open spec fn bumped(id: (u32, u32)) -> (u32, u32) {
    (id.0, next_generation_of(id.1))
}

impl<T> GenId<T> {
    /// A sentinel ID, `u32::MAX` in both slot and generation.
    #[allow(non_snake_case)]
    pub fn PLACEHOLDER() -> (gen_id: Self)
        ensures
            gen_id@ == (u32::MAX, u32::MAX),
    {
        Self::from_raw(u32::MAX, u32::MAX)
    }

    fn from_raw(id: u32, generation: u32) -> (gen_id: Self)
        ensures
            gen_id@ == (id, generation),
    {
        GenId { id, generation, _marker: PhantomData }
    }

    fn next_generation(self) -> (gen_id: Self)
        ensures
            gen_id@ == bumped(self@),
    {
        let mut next = self;
        next.generation = self.generation.wrapping_add(1);
        next
    }
}

impl<T> Clone for GenId<T> {
    fn clone(&self) -> (copy: Self)
        ensures
            copy@ == self@,
    {
        GenId { id: self.id, generation: self.generation, _marker: PhantomData }
    }
}

impl<T> Copy for GenId<T> {
}

impl<T> PartialEq for GenId<T> {
    fn eq(&self, other: &Self) -> (equal: bool) {
        self.id == other.id && self.generation == other.generation
    }
}

impl<T> PartialEqSpecImpl for GenId<T> {
    open spec fn obeys_eq_spec() -> bool {
        true
    }

    open spec fn eq_spec(&self, other: &Self) -> bool {
        self@ == other@
    }
}

impl<T> Eq for GenId<T> {
}

/// `<u32 as Hash>::hash`: feeds the integer to the hasher. No clause is
/// given.
pub assume_specification<H: Hasher>[ <u32 as Hash>::hash::<H> ](data: &u32, state: &mut H);

/// Hashes the raw slot, then the generation.
impl<T> Hash for GenId<T> {
    fn hash<H: Hasher>(&self, state: &mut H) {
        self.id.hash(state);
        self.generation.hash(state);
    }
}

/// Orders IDs by raw slot first, then by generation.
impl<T> PartialOrd for GenId<T> {
    fn partial_cmp(&self, other: &Self) -> (order: Option<Ordering>) {
        if self.id < other.id {
            Some(Ordering::Less)
        } else if self.id > other.id {
            Some(Ordering::Greater)
        } else if self.generation < other.generation {
            Some(Ordering::Less)
        } else if self.generation > other.generation {
            Some(Ordering::Greater)
        } else {
            Some(Ordering::Equal)
        }
    }
}

impl<T> PartialOrdSpecImpl for GenId<T> {
    open spec fn obeys_partial_cmp_spec() -> bool {
        true
    }

    open spec fn partial_cmp_spec(&self, other: &Self) -> Option<Ordering> {
        if self@.0 < other@.0 {
            Some(Ordering::Less)
        } else if self@.0 > other@.0 {
            Some(Ordering::Greater)
        } else if self@.1 < other@.1 {
            Some(Ordering::Less)
        } else if self@.1 > other@.1 {
            Some(Ordering::Greater)
        } else {
            Some(Ordering::Equal)
        }
    }
}


} // verus!

verus! {

/// Allocates and recycles [`GenId<T>`] values.
///
/// Recycled IDs are returned with a bumped generation so they are never
/// equal to any previously issued ID for the same raw slot.
pub struct IdGenerator<T> {
    next_id: u32,
    unused_ids: Vec<GenId<T>>,
}

/// The state of an [`IdGenerator`]: the next fresh raw slot, and the
/// recycled IDs in the order they were handed back.
pub type GeneratorState = (u32, Seq<(u32, u32)>);

impl<T> View for IdGenerator<T> {
    type V = GeneratorState;

    closed spec fn view(&self) -> GeneratorState {
        (self.next_id, self.unused_ids@.map_values(|g: GenId<T>| g@))
    }
}

/// `new_id` can answer: an ID waits to be reused, or a fresh slot is left.
pub open spec fn can_issue(s: GeneratorState) -> bool {
    s.1.len() > 0 || s.0 < u32::MAX
}

/// The ID that `new_id` hands out in state `s`: the most recently recycled
/// ID with its generation bumped, else slot `s.0` at generation 0.
pub open spec fn issued(s: GeneratorState) -> (u32, u32) {
    if s.1.len() > 0 {
        bumped(s.1.last())
    } else {
        (s.0, 0)
    }
}

/// The state that `new_id` leaves behind in state `s`.
pub open spec fn after_issue(s: GeneratorState) -> GeneratorState {
    if s.1.len() > 0 {
        (s.0, s.1.drop_last())
    } else {
        ((s.0 + 1) as u32, s.1)
    }
}

/// The state that `recycle(id)` leaves behind in state `s`.
pub open spec fn after_recycle(s: GeneratorState, id: (u32, u32)) -> GeneratorState {
    (s.0, s.1.push(id))
}

impl<T> IdGenerator<T> {
    /// An empty generator: no recycled IDs, next fresh slot 0.
    pub fn new() -> (generator: Self)
        ensures
            generator@ == (0u32, Seq::<(u32, u32)>::empty()),
    {
        let generator = IdGenerator { next_id: 0, unused_ids: Vec::new() };
        assert(generator@.1 =~= Seq::<(u32, u32)>::empty());
        generator
    }

    /// Returns a recycled ID (generation bumped) if one is available,
    /// otherwise allocates a fresh one.
    ///
    /// Running out of fresh slots (`u32::MAX` of them) with nothing to
    /// reuse is excluded by the precondition.
    pub fn new_id(&mut self) -> (id: GenId<T>)
        requires
            can_issue(old(self)@),
        ensures
            id@ == issued(old(self)@),
            final(self)@ == after_issue(old(self)@),
    {
        let ghost before = self.unused_ids@;
        match self.unused_ids.pop() {
            Some(id) => {
                assert(self.unused_ids@.map_values(|g: GenId<T>| g@) =~= before.map_values(
                    |g: GenId<T>| g@,
                ).drop_last());
                id.next_generation()
            },
            None => {
                let id = GenId::from_raw(self.next_id, 0);
                self.next_id = self.next_id + 1;
                id
            },
        }
    }

    /// Returns `id` to the pool for future reuse.
    pub fn recycle(&mut self, id: GenId<T>)
        ensures
            final(self)@ == after_recycle(old(self)@, id@),
    {
        self.unused_ids.push(id);
        assert(self@.1 =~= old(self)@.1.push(id@));
    }
}

impl<T> Default for IdGenerator<T> {
    fn default() -> (generator: Self)
        ensures
            generator@ == (0u32, Seq::<(u32, u32)>::empty()),
    {
        Self::new()
    }
}

} // verus!

verus! {

/// Recycling an ID and then asking for a new one hands back the same raw
/// slot at the next generation, which is never the recycled ID itself, and
/// leaves the generator exactly as it was before the recycle.
pub proof fn lemma_recycle_then_issue(s: GeneratorState, id: (u32, u32))
    ensures
        can_issue(after_recycle(s, id)),
        issued(after_recycle(s, id)) == bumped(id),
        issued(after_recycle(s, id)).0 == id.0,
        issued(after_recycle(s, id)) != id,
        after_issue(after_recycle(s, id)) == s,
{
    assert(s.1.push(id).drop_last() =~= s.1);
}

/// No two IDs among those handed out (`outstanding`) and those waiting in
/// the generator share a raw slot, and every such slot is below the next
/// fresh one.
pub open spec fn slots_unique(s: GeneratorState, outstanding: Set<(u32, u32)>) -> bool {
    &&& forall|a: (u32, u32)| #[trigger] outstanding.contains(a) ==> a.0 < s.0
    &&& forall|i: int| 0 <= i < s.1.len() ==> #[trigger] s.1[i].0 < s.0
    &&& forall|a: (u32, u32), b: (u32, u32)|
        #[trigger] outstanding.contains(a) && #[trigger] outstanding.contains(b) && a.0 == b.0
            ==> a == b
    &&& forall|i: int, j: int| 0 <= i < j < s.1.len() ==> #[trigger] s.1[i].0 != #[trigger] s.1[j].0
    &&& forall|a: (u32, u32), i: int|
        #[trigger] outstanding.contains(a) && 0 <= i < s.1.len() ==> a.0 != #[trigger] s.1[i].0
}

/// The ID that currently holds the raw slot of `h` (handed out, or waiting
/// in the generator) has a generation at least that of `h`.
pub open spec fn slot_holder_not_older(
    s: GeneratorState,
    outstanding: Set<(u32, u32)>,
    h: (u32, u32),
) -> bool {
    ||| exists|a: (u32, u32)| #[trigger] outstanding.contains(a) && a.0 == h.0 && h.1 <= a.1
    ||| exists|i: int| 0 <= i < s.1.len() && #[trigger] s.1[i].0 == h.0 && h.1 <= s.1[i].1
}

/// A consistent account of a generator's use: `outstanding` holds the IDs
/// handed out and not yet recycled, `history` every ID ever handed out.
pub open spec fn issue_log_ok(
    s: GeneratorState,
    outstanding: Set<(u32, u32)>,
    history: Set<(u32, u32)>,
) -> bool {
    &&& slots_unique(s, outstanding)
    &&& outstanding.subset_of(history)
    &&& forall|h: (u32, u32)| #[trigger]
        history.contains(h) ==> h.0 < s.0 && slot_holder_not_older(s, outstanding, h)
}

/// A new generator starts with a consistent, empty account.
pub proof fn lemma_issue_log_starts_empty()
    ensures
        issue_log_ok(
            (0u32, Seq::<(u32, u32)>::empty()),
            Set::<(u32, u32)>::empty(),
            Set::<(u32, u32)>::empty(),
        ),
{
}

/// An ID that `new_id` hands out has never been handed out before (unless
/// the recycled slot it reuses sits at generation `u32::MAX`, where the
/// generation wraps), shares its raw slot with no outstanding ID, and the
/// account stays consistent.
pub proof fn lemma_issue_is_fresh(
    s: GeneratorState,
    outstanding: Set<(u32, u32)>,
    history: Set<(u32, u32)>,
)
    requires
        issue_log_ok(s, outstanding, history),
        can_issue(s),
        s.1.len() > 0 ==> s.1.last().1 < u32::MAX,
    ensures
        !history.contains(issued(s)),
        forall|a: (u32, u32)| #[trigger] outstanding.contains(a) ==> a.0 != issued(s).0,
        issue_log_ok(
            after_issue(s),
            outstanding.insert(issued(s)),
            history.insert(issued(s)),
        ),
{
    let n = issued(s);
    let s2 = after_issue(s);
    let o2 = outstanding.insert(n);
    let h2 = history.insert(n);
    if s.1.len() > 0 {
        let last_i = s.1.len() - 1;
        let last = s.1[last_i];
        assert(n == (last.0, (last.1 + 1) as u32));
        assert forall|a: (u32, u32)| #[trigger] outstanding.contains(a) implies a.0 != n.0 by {
            assert(a.0 != s.1[last_i].0);
        }
        if history.contains(n) {
            assert(slot_holder_not_older(s, outstanding, n));
            if exists|a: (u32, u32)| #[trigger] outstanding.contains(a) && a.0 == n.0 && n.1 <= a.1 {
                let a = choose|a: (u32, u32)| #[trigger] outstanding.contains(a) && a.0 == n.0 && n.1 <= a.1;
                assert(a.0 != s.1[last_i].0);
            } else {
                let i = choose|i: int| 0 <= i < s.1.len() && #[trigger] s.1[i].0 == n.0 && n.1 <= s.1[i].1;
                if i != last_i {
                    assert(s.1[i].0 != s.1[last_i].0);
                }
            }
        }
        assert(s2.1 =~= s.1.drop_last());
        assert forall|h: (u32, u32)| #[trigger] h2.contains(h) implies h.0 < s2.0
            && slot_holder_not_older(s2, o2, h) by {
            if h == n {
                assert(o2.contains(n));
            } else {
                assert(history.contains(h));
                assert(slot_holder_not_older(s, outstanding, h));
                if exists|a: (u32, u32)| #[trigger] outstanding.contains(a) && a.0 == h.0 && h.1 <= a.1 {
                    let a = choose|a: (u32, u32)| #[trigger] outstanding.contains(a) && a.0 == h.0 && h.1 <= a.1;
                    assert(o2.contains(a));
                } else {
                    let i = choose|i: int| 0 <= i < s.1.len() && #[trigger] s.1[i].0 == h.0 && h.1 <= s.1[i].1;
                    if i == last_i {
                        assert(o2.contains(n));
                        assert(n.0 == h.0 && h.1 <= n.1);
                    } else {
                        assert(s2.1[i] == s.1[i]);
                    }
                }
            }
        }
        assert forall|a: (u32, u32), i: int|
            #[trigger] o2.contains(a) && 0 <= i < s2.1.len() implies a.0 != #[trigger] s2.1[i].0 by {
            assert(s2.1[i] == s.1[i]);
            if a == n {
                assert(s.1[i].0 != s.1[last_i].0);
            }
        }
        assert forall|a: (u32, u32), b: (u32, u32)|
            #[trigger] o2.contains(a) && #[trigger] o2.contains(b) && a.0 == b.0 implies a == b by {
            if a == n && b != n {
                assert(b.0 != s.1[last_i].0);
            }
            if b == n && a != n {
                assert(a.0 != s.1[last_i].0);
            }
        }
        assert forall|i: int, j: int| 0 <= i < j < s2.1.len() implies #[trigger] s2.1[i].0
            != #[trigger] s2.1[j].0 by {
            assert(s2.1[i] == s.1[i] && s2.1[j] == s.1[j]);
        }
        assert forall|i: int| 0 <= i < s2.1.len() implies #[trigger] s2.1[i].0 < s2.0 by {
            assert(s2.1[i] == s.1[i]);
        }
    } else {
        assert(n == (s.0, 0u32));
        assert forall|h: (u32, u32)| #[trigger] h2.contains(h) implies h.0 < s2.0
            && slot_holder_not_older(s2, o2, h) by {
            if h == n {
                assert(o2.contains(n));
            } else {
                assert(slot_holder_not_older(s, outstanding, h));
                let a = choose|a: (u32, u32)| #[trigger] outstanding.contains(a) && a.0 == h.0 && h.1 <= a.1;
                assert(o2.contains(a));
            }
        }
        assert forall|a: (u32, u32), b: (u32, u32)|
            #[trigger] o2.contains(a) && #[trigger] o2.contains(b) && a.0 == b.0 implies a == b by {
            if a == n && b != n {
                assert(outstanding.contains(b));
            }
            if b == n && a != n {
                assert(outstanding.contains(a));
            }
        }
    }
}

/// Recycling an outstanding ID keeps the account consistent.
pub proof fn lemma_recycle_keeps_log(
    s: GeneratorState,
    outstanding: Set<(u32, u32)>,
    history: Set<(u32, u32)>,
    id: (u32, u32),
)
    requires
        issue_log_ok(s, outstanding, history),
        outstanding.contains(id),
    ensures
        issue_log_ok(after_recycle(s, id), outstanding.remove(id), history),
{
    let s2 = after_recycle(s, id);
    let o2 = outstanding.remove(id);
    let n = s.1.len() as int;
    assert(s2.1[n] == id);
    assert forall|i: int| 0 <= i < n implies #[trigger] s2.1[i] == s.1[i] by {}
    assert forall|h: (u32, u32)| #[trigger] history.contains(h) implies h.0 < s2.0
        && slot_holder_not_older(s2, o2, h) by {
        assert(slot_holder_not_older(s, outstanding, h));
        if exists|a: (u32, u32)| #[trigger] outstanding.contains(a) && a.0 == h.0 && h.1 <= a.1 {
            let a = choose|a: (u32, u32)| #[trigger] outstanding.contains(a) && a.0 == h.0 && h.1 <= a.1;
            if a == id {
                assert(0 <= n < s2.1.len() && s2.1[n].0 == h.0 && h.1 <= s2.1[n].1);
            } else {
                assert(o2.contains(a));
            }
        } else {
            let i = choose|i: int| 0 <= i < s.1.len() && #[trigger] s.1[i].0 == h.0 && h.1 <= s.1[i].1;
            assert(s2.1[i] == s.1[i]);
        }
    }
    assert forall|i: int, j: int| 0 <= i < j < s2.1.len() implies #[trigger] s2.1[i].0
        != #[trigger] s2.1[j].0 by {
        if j == n {
            assert(s2.1[i] == s.1[i]);
        } else {
            assert(s2.1[i] == s.1[i] && s2.1[j] == s.1[j]);
        }
    }
    assert forall|a: (u32, u32), i: int|
        #[trigger] o2.contains(a) && 0 <= i < s2.1.len() implies a.0 != #[trigger] s2.1[i].0 by {
        if i == n {
            assert(outstanding.contains(a) && a != id);
        } else {
            assert(s2.1[i] == s.1[i]);
        }
    }
    assert forall|i: int| 0 <= i < s2.1.len() implies #[trigger] s2.1[i].0 < s2.0 by {
        if i < n {
            assert(s2.1[i] == s.1[i]);
        }
    }
}

} // verus!

verus! {

/// The character of decimal digit `d` (0 to 9).
pub open spec fn digit_char(d: nat) -> char {
    if d == 0 {
        '0'
    } else if d == 1 {
        '1'
    } else if d == 2 {
        '2'
    } else if d == 3 {
        '3'
    } else if d == 4 {
        '4'
    } else if d == 5 {
        '5'
    } else if d == 6 {
        '6'
    } else if d == 7 {
        '7'
    } else if d == 8 {
        '8'
    } else {
        '9'
    }
}

/// The decimal digits of `n`, most significant first, with no leading zero.
pub open spec fn decimal(n: nat) -> Seq<char>
    decreases n,
{
    if n < 10 {
        seq![digit_char(n)]
    } else {
        decimal(n / 10).push(digit_char(n % 10))
    }
}

/// The value a decimal digit character stands for: its code less that of
/// `'0'`.
pub open spec fn digit_value(c: char) -> int {
    (c as int) - ('0' as int)
}

/// The number a string of decimal digits stands for, most significant
/// digit first.
pub open spec fn numeral_value(s: Seq<char>) -> int
    decreases s.len(),
{
    if s.len() == 0 {
        0
    } else {
        numeral_value(s.drop_last()) * 10 + digit_value(s.last())
    }
}

/// The character of a digit `d` below 10 is the one whose code is that of
/// `'0'` plus `d`.
pub proof fn lemma_digit_char_code(d: nat)
    requires
        d < 10,
    ensures
        digit_char(d) as int == ('0' as int) + d,
        digit_value(digit_char(d)) == d,
{
}

/// `decimal(n)` is a non-empty string of the characters `'0'` to `'9'` that
/// reads back, in base 10, as `n`.
pub proof fn lemma_decimal_reads_back(n: nat)
    ensures
        decimal(n).len() > 0,
        numeral_value(decimal(n)) == n,
        forall|i: int|
            0 <= i < decimal(n).len() ==> ('0' as int) <= #[trigger] (decimal(n)[i] as int) <= (
            '9' as int),
    decreases n,
{
    if n < 10 {
        lemma_digit_char_code(n);
        assert(decimal(n).drop_last() =~= Seq::<char>::empty());
        assert(numeral_value(Seq::<char>::empty()) == 0);
    } else {
        lemma_decimal_reads_back(n / 10);
        lemma_digit_char_code(n % 10);
        let s = decimal(n);
        assert(s.drop_last() =~= decimal(n / 10));
        assert(s.last() == digit_char(n % 10));
        assert((n / 10) * 10 + n % 10 == n) by (nonlinear_arith);
        assert(numeral_value(s) == numeral_value(decimal(n / 10)) * 10 + digit_value(
            digit_char(n % 10),
        ));
        assert forall|i: int| 0 <= i < s.len() implies ('0' as int) <= #[trigger] (s[i] as int) <= (
        '9' as int) by {
            if i < s.len() - 1 {
                assert(s[i] == decimal(n / 10)[i]);
            }
        }
    }
}

/// `String::push`: appends `c`.
#[verifier::external_body]
fn push_char(text: &mut String, c: char)
    ensures
        final(text)@ == old(text)@.push(c),
{
    text.push(c);
}

fn digit(d: u32) -> (c: char)
    requires
        d < 10,
    ensures
        c == digit_char(d as nat),
{
    if d == 0 {
        '0'
    } else if d == 1 {
        '1'
    } else if d == 2 {
        '2'
    } else if d == 3 {
        '3'
    } else if d == 4 {
        '4'
    } else if d == 5 {
        '5'
    } else if d == 6 {
        '6'
    } else if d == 7 {
        '7'
    } else if d == 8 {
        '8'
    } else {
        '9'
    }
}

/// Appends the decimal digits of `n`.
fn push_decimal(text: &mut String, n: u32)
    ensures
        final(text)@ == old(text)@ + decimal(n as nat),
    decreases n,
{
    if n >= 10 {
        push_decimal(text, n / 10);
    }
    push_char(text, digit(n % 10));
    proof {
        if n >= 10 {
            assert(old(text)@ + decimal(n as nat) =~= old(text)@ + decimal((n / 10) as nat) + seq![
                digit_char((n % 10) as nat),
            ]);
        } else {
            assert(old(text)@ + decimal(n as nat) =~= old(text)@ + seq![digit_char(n as nat)]);
        }
    }
}

impl<T> GenId<T> {
    /// The ID as text: raw slot, `v`, generation, in decimal (`"3v1"`).
    pub fn to_string(&self) -> (text: String)
        ensures
            text@ == decimal(self@.0 as nat) + seq!['v'] + decimal(self@.1 as nat),
    {
        let mut text = String::new();
        push_decimal(&mut text, self.id);
        push_char(&mut text, 'v');
        push_decimal(&mut text, self.generation);
        assert(text@ =~= decimal(self@.0 as nat) + seq!['v'] + decimal(self@.1 as nat));
        text
    }
}

} // verus!

verus! {

/// The text of an ID (what `to_string` gives) has one `'v'`; the digits
/// before it read back, in base 10, as the ID's slot and those after it as
/// its generation.
pub proof fn lemma_to_string_reads_back<T>(id: GenId<T>, text: Seq<char>)
    requires
        text == decimal(id@.0 as nat) + seq!['v'] + decimal(id@.1 as nat),
    ensures
        exists|i: int|
            0 <= i < text.len() && text[i] == 'v' && (forall|j: int|
                0 <= j < text.len() && j != i ==> text[j] != 'v') && numeral_value(
                text.subrange(0, i),
            ) == id@.0 && numeral_value(text.subrange(i + 1, text.len() as int)) == id@.1,
{
    let a = decimal(id@.0 as nat);
    let b = decimal(id@.1 as nat);
    lemma_decimal_reads_back(id@.0 as nat);
    lemma_decimal_reads_back(id@.1 as nat);
    let i = a.len() as int;
    assert(text.subrange(0, i) =~= a);
    assert(text.subrange(i + 1, text.len() as int) =~= b);
    assert(text[i] == 'v');
    assert forall|j: int| 0 <= j < text.len() && j != i implies text[j] != 'v' by {
        if j < i {
            assert(text[j] == a[j]);
            assert(('0' as int) <= (a[j] as int) <= ('9' as int));
        } else {
            assert(text[j] == b[j - i - 1]);
            assert(('0' as int) <= (b[j - i - 1] as int) <= ('9' as int));
        }
    }
}

/// Two IDs are equal (`==`) exactly when they have the same slot and the
/// same generation: IDs in different slots are never equal.
pub proof fn lemma_gen_id_eq<T>(a: GenId<T>, b: GenId<T>)
    ensures
        PartialEqSpec::eq_spec(&a, &b) <==> (a@.0 == b@.0 && a@.1 == b@.1),
{
}

/// IDs are ordered by slot first, then by generation, and compare equal
/// exactly when they are equal.
pub proof fn lemma_gen_id_order<T>(a: GenId<T>, b: GenId<T>)
    ensures
        (PartialOrdSpec::partial_cmp_spec(&a, &b) == Some(Ordering::Less)) <==> (a@.0 < b@.0 || (a@.0 == b@.0
            && a@.1 < b@.1)),
        (PartialOrdSpec::partial_cmp_spec(&a, &b) == Some(Ordering::Greater)) <==> (a@.0 > b@.0 || (a@.0 == b@.0
            && a@.1 > b@.1)),
        (PartialOrdSpec::partial_cmp_spec(&a, &b) == Some(Ordering::Equal)) <==> PartialEqSpec::eq_spec(
            &a,
            &b,
        ),
{
}

/// A fresh ID (nothing waits to be reused) sits in a slot below `u32::MAX`,
/// so it is never the placeholder ID.
pub proof fn lemma_fresh_id_not_placeholder(s: GeneratorState)
    requires
        s.1.len() == 0,
        can_issue(s),
    ensures
        issued(s) == (s.0, 0u32),
        issued(s).0 < u32::MAX,
        issued(s) != (u32::MAX, u32::MAX),
{
}

/// The IDs that `n` successive `new_id` calls hand out in state `s`, in
/// order, and the state they leave behind.
pub open spec fn issue_many(s: GeneratorState, n: nat) -> (Seq<(u32, u32)>, GeneratorState)
    decreases n,
{
    if n == 0 {
        (Seq::empty(), s)
    } else {
        let before = issue_many(s, (n - 1) as nat);
        (before.0.push(issued(before.1)), after_issue(before.1))
    }
}

/// From a new generator, `n` successive `new_id` calls (up to `u32::MAX` of
/// them, none refused) hand out slots `0, 1, ..., n - 1`, all at
/// generation 0, and leave the next fresh slot at `n` with nothing to reuse.
pub proof fn lemma_fresh_sequence(n: nat)
    requires
        n <= u32::MAX,
    ensures
        issue_many((0u32, Seq::<(u32, u32)>::empty()), n).0 =~= Seq::new(
            n,
            |i: int| (i as u32, 0u32),
        ),
        issue_many((0u32, Seq::<(u32, u32)>::empty()), n).1 == (n as u32, Seq::<(u32, u32)>::empty()),
        forall|k: nat| #![trigger issue_many((0u32, Seq::<(u32, u32)>::empty()), k)]
            k < n ==> can_issue(issue_many((0u32, Seq::<(u32, u32)>::empty()), k).1),
    decreases n,
{
    let s0 = (0u32, Seq::<(u32, u32)>::empty());
    if n > 0 {
        lemma_fresh_sequence((n - 1) as nat);
        let prev = issue_many(s0, (n - 1) as nat);
        assert(prev.1 == ((n - 1) as u32, Seq::<(u32, u32)>::empty()));
        assert(issued(prev.1) == ((n - 1) as u32, 0u32));
        assert forall|k: nat| #![trigger issue_many(s0, k)]
            k < n implies can_issue(issue_many(s0, k).1) by {
            if k < n - 1 {
            } else {
                assert(k == n - 1);
            }
        }
    }
}

} // verus!

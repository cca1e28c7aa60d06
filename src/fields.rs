use vstd::prelude::*;
use vstd::string::StrSliceExecFns;

verus! {

/// Whether the text `s` equals `lit`.
pub fn text_is(s: &str, lit: &str) -> (r: bool)
    ensures
        r == (s@ == lit@),
{
    let n = s.unicode_len();
    if n != lit.unicode_len() {
        return false;
    }
    let mut i: usize = 0;
    while i < n
        invariant
            i <= n == s@.len() == lit@.len(),
            forall|k: int| 0 <= k < i ==> s@[k] == lit@[k],
        decreases n - i,
    {
        if s.get_char(i) != lit.get_char(i) {
            return false;
        }
        i = i + 1;
    }
    assert(s@ =~= lit@);
    true
}

/// Why a container's children were refused.
#[derive(Clone, Copy, Debug, PartialEq, Eq, Structural)]
pub enum OrderError {
    /// A child came after one that must follow it.
    OutOfOrderField,
}

/// Where the cursor over declared kinds stands after a child of kind `k`
/// (kinds are indices into `repeatable`, in declared order); `None` when
/// the child comes too late.
pub open spec fn next_cursor(repeatable: Seq<bool>, cursor: int, k: int) -> Option<int> {
    if k < cursor {
        None
    } else if repeatable[k] {
        Some(k)
    } else if k + 1 < repeatable.len() {
        Some(k + 1)
    } else {
        Some(repeatable.len() - 1)
    }
}

/// Checks that a container's children come in their declared order. A
/// repeatable kind may come again; the others at most once, each at or
/// after the kinds before it.
pub struct FieldOrder {
    repeatable: Vec<bool>,
    cursor: usize,
}

impl FieldOrder {
    /// Whether each declared kind may repeat, in declared order.
    pub closed spec fn repeatable(&self) -> Seq<bool> {
        self.repeatable@
    }

    /// The least kind that may come next.
    pub closed spec fn cursor(&self) -> int {
        self.cursor as int
    }

    pub closed spec fn wf(&self) -> bool {
        self.cursor < self.repeatable@.len()
    }

    /// A validator over kinds `0 .. repeatable.len()`, before any child.
    pub fn new(repeatable: Vec<bool>) -> (r: FieldOrder)
        requires
            repeatable@.len() > 0,
        ensures
            r.wf(),
            r.repeatable() == repeatable@,
            r.cursor() == 0,
    {
        FieldOrder { repeatable, cursor: 0 }
    }

    /// Takes a child of kind `kind`.
    pub fn accept(&mut self, kind: usize) -> (r: Result<(), OrderError>)
        requires
            old(self).wf(),
            kind < old(self).repeatable().len(),
        ensures
            final(self).wf(),
            final(self).repeatable() == old(self).repeatable(),
            match next_cursor(old(self).repeatable(), old(self).cursor(), kind as int) {
                Some(c) => r is Ok && final(self).cursor() == c,
                None => r == Err::<(), OrderError>(OrderError::OutOfOrderField)
                    && final(self).cursor() == old(self).cursor(),
            },
    {
        if kind < self.cursor {
            return Err(OrderError::OutOfOrderField);
        }
        if self.repeatable[kind] {
            self.cursor = kind;
        } else if kind < self.repeatable.len() - 1 {
            self.cursor = kind + 1;
        } else {
            self.cursor = self.repeatable.len() - 1;
        }
        Ok(())
    }
}

/// The cursor after children of kinds `kinds` (`None` for a child of no
/// declared kind, which is skipped), from `cursor`; `None` when one of
/// them comes too late.
pub open spec fn order_run(repeatable: Seq<bool>, kinds: Seq<Option<usize>>, cursor: int) -> Option<int>
    decreases kinds.len(),
{
    if kinds.len() == 0 {
        Some(cursor)
    } else {
        match order_run(repeatable, kinds.drop_last(), cursor) {
            None => None,
            Some(c) => match kinds.last() {
                None => Some(c),
                Some(k) => next_cursor(repeatable, c, k as int),
            },
        }
    }
}

/// Once a prefix of the children fails, so do all of them.
pub proof fn lemma_order_run_prefix(repeatable: Seq<bool>, kinds: Seq<Option<usize>>, m: int)
    requires
        0 <= m <= kinds.len(),
        order_run(repeatable, kinds.take(m), 0) is None,
    ensures
        order_run(repeatable, kinds, 0) is None,
    decreases kinds.len(),
{
    if m == kinds.len() {
        assert(kinds.take(m) =~= kinds);
    } else {
        let p = kinds.drop_last();
        assert(p.take(m) =~= kinds.take(m));
        lemma_order_run_prefix(repeatable, p, m);
    }
}

/// Position of the first child of kinds `kinds` that comes too late; 0
/// when none does.
pub open spec fn order_failure(repeatable: Seq<bool>, kinds: Seq<Option<usize>>) -> int
    decreases kinds.len(),
{
    if kinds.len() == 0 {
        0
    } else if order_run(repeatable, kinds.drop_last(), 0) is None {
        order_failure(repeatable, kinds.drop_last())
    } else {
        kinds.len() - 1
    }
}

/// The first child that makes the run fail is the one `order_failure`
/// names.
pub proof fn lemma_order_failure(repeatable: Seq<bool>, kinds: Seq<Option<usize>>, q: int)
    requires
        0 <= q < kinds.len(),
        order_run(repeatable, kinds.take(q), 0) is Some,
        order_run(repeatable, kinds.take(q + 1), 0) is None,
    ensures
        order_failure(repeatable, kinds) == q,
    decreases kinds.len(),
{
    let p = kinds.drop_last();
    if q + 1 == kinds.len() {
        assert(p =~= kinds.take(q));
    } else {
        assert(p.take(q) =~= kinds.take(q));
        assert(p.take(q + 1) =~= kinds.take(q + 1));
        lemma_order_run_prefix(repeatable, p, q + 1);
        lemma_order_failure(repeatable, p, q);
    }
}

/// Checks children of kinds `kinds`, in order, against the declared order;
/// on failure returns the position of the first child that comes too late.
pub fn check_order(repeatable: Vec<bool>, kinds: &Vec<Option<usize>>) -> (r: Result<(), usize>)
    requires
        repeatable@.len() > 0,
        forall|q: int| 0 <= q < kinds@.len() ==> (#[trigger] kinds@[q] matches Some(k) ==> k
            < repeatable@.len()),
    ensures
        r is Ok <==> order_run(repeatable@, kinds@, 0) is Some,
        r matches Err(q) ==> q < kinds@.len() && order_run(repeatable@, kinds@.take(q as int), 0) is Some
            && order_run(repeatable@, kinds@.take(q + 1), 0) is None && q == order_failure(
            repeatable@,
            kinds@,
        ),
{
    let ghost rep = repeatable@;
    let mut order = FieldOrder::new(repeatable);
    let n = kinds.len();
    let mut q: usize = 0;
    assert(kinds@.take(0) =~= Seq::<Option<usize>>::empty());
    while q < n
        invariant
            q <= n == kinds@.len(),
            order.wf(),
            order.repeatable() == rep,
            rep == repeatable@,
            forall|x: int| 0 <= x < kinds@.len() ==> (#[trigger] kinds@[x] matches Some(k) ==> k
                < rep.len()),
            order_run(rep, kinds@.take(q as int), 0) == Some(order.cursor()),
        decreases n - q,
    {
        assert(kinds@.take(q + 1).drop_last() =~= kinds@.take(q as int));
        assert(kinds@.take(q + 1).last() == kinds@[q as int]);
        match kinds[q] {
            Some(k) => {
                let ghost c0 = order.cursor();
                let res = order.accept(k);
                if res.is_err() {
                    proof {
                        assert(next_cursor(rep, c0, k as int) is None);
                        assert(order_run(rep, kinds@.take(q + 1), 0) is None);
                        lemma_order_run_prefix(rep, kinds@, q + 1);
                        lemma_order_failure(rep, kinds@, q as int);
                    }
                    return Err(q);
                }
            },
            None => {},
        }
        q = q + 1;
    }
    assert(kinds@.take(n as int) =~= kinds@);
    Ok(())
}

/// Once a child of some kind is taken, a child of an earlier kind is
/// refused.
pub proof fn lemma_earlier_kind_refused(repeatable: Seq<bool>, cursor: int, k1: int, k2: int)
    requires
        0 <= cursor <= k1 < repeatable.len(),
        0 <= k2 < k1,
    ensures
        next_cursor(repeatable, cursor, k1) matches Some(c) && next_cursor(repeatable, c, k2) is None,
{
}

/// A repeatable kind, once taken, is taken again at once.
pub proof fn lemma_repeatable_repeats(repeatable: Seq<bool>, cursor: int, k: int)
    requires
        0 <= cursor <= k < repeatable.len(),
        repeatable[k],
    ensures
        next_cursor(repeatable, cursor, k) == Some(k),
        next_cursor(repeatable, k, k) == Some(k),
{
}

} // verus!

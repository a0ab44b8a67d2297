//! Partial functions between finite sets `{0, .., n - 1}`, stored as the
//! list of images; `None` marks a point without image.
use vstd::prelude::*;

verus! {

pub type Value = usize;

/// The image of each point of the domain, in order.
#[derive(Debug)]
pub struct Function {
    data: Vec<Option<Value>>,
}

/// The larger of two optional values, where `None` is below every value.
pub open spec fn option_max(a: Option<Value>, b: Option<Value>) -> Option<Value> {
    match (a, b) {
        (None, x) => x,
        (x, None) => x,
        (Some(p), Some(q)) => Some(if p >= q { p } else { q }),
    }
}

/// The largest image of `images`; `None` when no point has one.
pub open spec fn largest(images: Seq<Option<Value>>) -> Option<Value>
    decreases images.len(),
{
    if images.len() == 0 {
        None
    } else {
        option_max(largest(images.drop_last()), images.last())
    }
}

/// The image of `value` under `images`; `None` outside the domain.
pub open spec fn image(images: Seq<Option<Value>>, value: int) -> Option<Value> {
    if 0 <= value < images.len() {
        images[value]
    } else {
        None
    }
}

/// The images under `second` of the images under `first`, for the points
/// of `first` that have one, in order.
pub open spec fn composition(first: Seq<Option<Value>>, second: Seq<Option<Value>>) -> Seq<Option<Value>>
    decreases first.len(),
{
    if first.len() == 0 {
        Seq::empty()
    } else {
        let rest = composition(first.drop_last(), second);
        match first.last() {
            Some(x) => rest.push(image(second, x as int)),
            None => rest,
        }
    }
}

/// For each pair `(i, j)`, rows by `i`: `pick(i, j)` where the images of
/// `i` under `first` and of `j` under `second` agree, else `None`.
pub open spec fn agreement(
    first: Seq<Option<Value>>,
    second: Seq<Option<Value>>,
    pick_first: bool,
) -> Seq<Option<Value>>
    decreases first.len(),
{
    if first.len() == 0 {
        Seq::empty()
    } else {
        let i = first.len() - 1;
        agreement(first.drop_last(), second, pick_first) + second.map(
            |j: int, y: Option<Value>|
                if first.last() == y {
                    Some(if pick_first { i as Value } else { j as Value })
                } else {
                    None
                },
        )
    }
}

impl View for Function {
    type V = Seq<Option<Value>>;

    closed spec fn view(&self) -> Seq<Option<Value>> {
        self.data@
    }
}

impl Function {
    /// The function that maps point `i` to `data[i]`.
    pub fn new(data: Vec<Value>) -> (r: Function)
        ensures
            r@.len() == data@.len(),
            forall|i: int| 0 <= i < data@.len() ==> #[trigger] r@[i] == Some(data@[i]),
    {
        let mut images: Vec<Option<Value>> = Vec::new();
        let mut i: usize = 0;
        while i < data.len()
            invariant
                0 <= i <= data@.len(),
                images@.len() == i,
                forall|j: int| 0 <= j < i ==> #[trigger] images@[j] == Some(data@[j]),
            decreases data@.len() - i,
        {
            images.push(Some(data[i]));
            i = i + 1;
        }
        Function { data: images }
    }

    /// The number of points of the domain.
    pub fn domain(&self) -> (r: usize)
        ensures
            r == self@.len(),
    {
        self.data.len()
    }

    /// The largest image; `None` when no point has one.
    pub fn range(&self) -> (r: Option<usize>)
        ensures
            r == largest(self@),
    {
        let mut best: Option<Value> = None;
        let mut i: usize = 0;
        while i < self.data.len()
            invariant
                0 <= i <= self@.len(),
                best == largest(self@.subrange(0, i as int)),
            decreases self@.len() - i,
        {
            let x = self.data[i];
            proof {
                let s = self@.subrange(0, i as int + 1);
                assert(s.drop_last() =~= self@.subrange(0, i as int));
                assert(s.last() == x);
            }
            best = match (best, x) {
                (None, x) => x,
                (b, None) => b,
                (Some(p), Some(q)) => Some(if p >= q { p } else { q }),
            };
            i = i + 1;
        }
        proof {
            assert(self@.subrange(0, self@.len() as int) =~= self@);
        }
        best
    }

    /// The image of `value`; `None` outside the domain or where it has none.
    pub fn apply(&self, value: Value) -> (r: Option<Value>)
        ensures
            r == image(self@, value as int),
    {
        if value < self.data.len() {
            self.data[value]
        } else {
            None
        }
    }

    /// The identity on `size` points.
    pub fn identity(size: usize) -> (r: Function)
        ensures
            r@.len() == size,
            forall|i: int| 0 <= i < size ==> #[trigger] r@[i] == Some(i as Value),
    {
        let mut images: Vec<Option<Value>> = Vec::new();
        let mut i: usize = 0;
        while i < size
            invariant
                0 <= i <= size,
                images@.len() == i,
                forall|j: int| 0 <= j < i ==> #[trigger] images@[j] == Some(j as Value),
            decreases size - i,
        {
            images.push(Some(i));
            i = i + 1;
        }
        Function { data: images }
    }

    /// `other` after this function, on the points of this function that have an image.
    pub fn compose(&self, other: &Function) -> (r: Function)
        ensures
            r@ == composition(self@, other@),
    {
        let mut images: Vec<Option<Value>> = Vec::new();
        let mut i: usize = 0;
        while i < self.data.len()
            invariant
                0 <= i <= self@.len(),
                images@ == composition(self@.subrange(0, i as int), other@),
            decreases self@.len() - i,
        {
            let x = self.data[i];
            proof {
                let s = self@.subrange(0, i as int + 1);
                assert(s.drop_last() =~= self@.subrange(0, i as int));
                assert(s.last() == x);
            }
            if let Some(output) = x {
                images.push(other.apply(output));
            }
            i = i + 1;
        }
        proof {
            assert(self@.subrange(0, self@.len() as int) =~= self@);
        }
        Function { data: images }
    }

    /// The two legs over all pairs `(i, j)` of points, rows by `i`: where the
    /// images of `i` here and of `j` under `other` agree, the first leg maps
    /// the pair to `i` and the second to `j`; elsewhere neither has an image.
    pub fn pullback(&self, other: &Function) -> (r: (Function, Function))
        ensures
            r.0@ == agreement(self@, other@, true),
            r.1@ == agreement(self@, other@, false),
    {
        let mut down: Vec<Option<Value>> = Vec::new();
        let mut across: Vec<Option<Value>> = Vec::new();
        let mut i: usize = 0;
        while i < self.data.len()
            invariant
                0 <= i <= self@.len(),
                down@ == agreement(self@.subrange(0, i as int), other@, true),
                across@ == agreement(self@.subrange(0, i as int), other@, false),
            decreases self@.len() - i,
        {
            let x = self.data[i];
            let ghost s = self@.subrange(0, i as int + 1);
            let ghost down0 = down@;
            let ghost across0 = across@;
            let ghost row_down = other@.map(
                |j: int, y: Option<Value>|
                    if x == y {
                        Some(i as Value)
                    } else {
                        None
                    },
            );
            let ghost row_across = other@.map(
                |j: int, y: Option<Value>|
                    if x == y {
                        Some(j as Value)
                    } else {
                        None
                    },
            );
            proof {
                assert(s.drop_last() =~= self@.subrange(0, i as int));
                assert(s.last() == x);
                assert(agreement(s, other@, true) == down0 + row_down);
                assert(agreement(s, other@, false) == across0 + row_across);
            }
            let mut j: usize = 0;
            while j < other.data.len()
                invariant
                    0 <= j <= other@.len(),
                    down@ == down0 + row_down.subrange(0, j as int),
                    across@ == across0 + row_across.subrange(0, j as int),
                    row_down.len() == other@.len(),
                    row_across.len() == other@.len(),
                    forall|t: int| 0 <= t < other@.len() ==> #[trigger] row_down[t] == if x == other@[t] {
                        Some(i as Value)
                    } else {
                        None
                    },
                    forall|t: int| 0 <= t < other@.len() ==> #[trigger] row_across[t] == if x == other@[t] {
                        Some(t as Value)
                    } else {
                        None
                    },
                decreases other@.len() - j,
            {
                let y = other.data[j];
                if x == y {
                    down.push(Some(i));
                    across.push(Some(j));
                } else {
                    down.push(None);
                    across.push(None);
                }
                proof {
                    assert(down@ =~= down0 + row_down.subrange(0, j as int + 1));
                    assert(across@ =~= across0 + row_across.subrange(0, j as int + 1));
                }
                j = j + 1;
            }
            proof {
                assert(row_down.subrange(0, other@.len() as int) =~= row_down);
                assert(row_across.subrange(0, other@.len() as int) =~= row_across);
            }
            i = i + 1;
        }
        proof {
            assert(self@.subrange(0, self@.len() as int) =~= self@);
        }
        (Function { data: down }, Function { data: across })
    }

    /// The legs of the pushout; not computed yet: both are empty.
    pub fn pushout(&self, other: &Function) -> (r: (Function, Function))
        ensures
            r.0@.len() == 0,
            r.1@.len() == 0,
    {
        (Function { data: Vec::new() }, Function { data: Vec::new() })
    }
}

} // verus!

//! A singly linked list that is never changed in place: `insert` and `map`
//! build a new list from clones of the values.

use std::fmt::Debug;
use std::fmt::Display;
use vstd::prelude::*;
use vstd::std_specs::convert::FromSpecImpl;
use vstd::string::to_string_from_display_ensures;
use vstd::string::StringExecFns;

verus! {

#[derive(Debug, Default)]
pub enum LNode<A> {
    #[default]
    Null,
    Node(A, Box<LNode<A>>),
}

/// The values of a list, front to back.
pub open spec fn values_of<A>(list: LNode<A>) -> Seq<A>
    decreases list,
{
    match list {
        LNode::Null => Seq::empty(),
        LNode::Node(a, next) => seq![a] + values_of(*next),
    }
}

impl<A> View for LNode<A> {
    type V = Seq<A>;

    /// The values of the list, front to back.
    open spec fn view(&self) -> Seq<A> {
        values_of(*self)
    }
}

/// `b` is what `times` clones in a row can make of `a`: a clone of a clone
/// of ... `a`.
pub open spec fn recloned<A: Clone>(a: A, b: A, times: nat) -> bool
    decreases times,
{
    if times == 0 {
        a == b
    } else {
        exists|m: A| #[trigger] cloned(a, m) && recloned(m, b, (times - 1) as nat)
    }
}

/// One more clone at the end of a row of clones.
pub proof fn lemma_recloned_once_more<A: Clone>(a: A, b: A, c: A, times: nat)
    requires
        recloned(a, b, times),
        cloned(b, c),
    ensures
        recloned(a, c, times + 1),
    decreases times,
{
    if times == 0 {
        assert(cloned(a, c) && recloned(c, c, 0));
    } else {
        let m = choose|m: A| #[trigger] cloned(a, m) && recloned(m, b, (times - 1) as nat);
        lemma_recloned_once_more(m, b, c, (times - 1) as nat);
        assert(cloned(a, m) && recloned(m, c, times));
    }
}

/// `y` is what `f` can return for a clone of `x`.
pub open spec fn mapped<A: Clone, B, F: Fn(A) -> B>(f: F, x: A, y: B) -> bool {
    exists|a: A| #[trigger] cloned(x, a) && call_ensures(f, (a,), y)
}

/// The text of the nodes: `Node(`, the text of the value and `)->` for each.
pub open spec fn nodes_text(parts: Seq<String>) -> Seq<char>
    decreases parts.len(),
{
    if parts.len() == 0 {
        Seq::empty()
    } else {
        nodes_text(parts.drop_last()) + "Node("@ + parts.last()@ + ")->"@
    }
}

/// The text of a list whose values read `parts`: the nodes, then `Null`.
pub open spec fn rendered(parts: Seq<String>) -> Seq<char> {
    nodes_text(parts) + "Null"@
}

/// The text of a list whose values read `parts`.
pub fn render(parts: &Vec<String>) -> (text: String)
    ensures
        text@ == rendered(parts@),
{
    let mut r = String::new();
    let mut i: usize = 0;
    while i < parts.len()
        invariant
            i <= parts.len(),
            r@ == nodes_text(parts@.take(i as int)),
        decreases parts.len() - i,
    {
        proof {
            assert(parts@.take(i + 1).drop_last() =~= parts@.take(i as int));
        }
        r.append("Node(");
        r.append(parts[i].as_str());
        r.append(")->");
        i += 1;
    }
    proof {
        assert(parts@.take(i as int) =~= parts@);
    }
    r.append("Null");
    r
}

impl<A: Clone + Display + Debug> LNode<A> {
    /// The list without values.
    pub fn empty() -> (list: LNode<A>)
        ensures
            list@ == Seq::<A>::empty(),
    {
        LNode::Null
    }

    /// The list of one value.
    pub fn singleton(val: A) -> (list: LNode<A>)
        ensures
            list@ == seq![val],
    {
        let list = LNode::Node(val, Box::new(LNode::Null));
        proof {
            assert(values_of(LNode::<A>::Null) =~= Seq::<A>::empty());
            assert(list@ =~= seq![val]);
        }
        list
    }

    /// A list of what `f` returns for a clone of each value, in order.
    pub fn map<B: Clone + Display, F: Fn(A) -> B + Copy>(&self, f: F) -> (list: LNode<B>)
        requires
            forall|i: int, a: A|
                0 <= i < self@.len() && cloned(#[trigger] self@[i], a) ==> #[trigger] call_requires(
                    f,
                    (a,),
                ),
        ensures
            list@.len() == self@.len(),
            forall|i: int| 0 <= i < self@.len() ==> mapped(f, self@[i], #[trigger] list@[i]),
        decreases self,
    {
        match self {
            LNode::Null => LNode::Null,
            LNode::Node(a, next) => {
                proof {
                    assert(self@[0] == *a);
                    assert forall|i: int, x: A|
                        0 <= i < next@.len() && cloned(#[trigger] next@[i], x) implies #[trigger] call_requires(
                        f,
                        (x,),
                    ) by {
                        assert(next@[i] == self@[i + 1]);
                    }
                }
                let copy = a.clone();
                let ghost given = copy;
                let head = f(copy);
                let rest = next.map(f);
                let list = LNode::Node(head, Box::new(rest));
                proof {
                    assert forall|i: int| 0 <= i < self@.len() implies mapped(
                        f,
                        self@[i],
                        #[trigger] list@[i],
                    ) by {
                        if i > 0 {
                            assert(self@[i] == next@[i - 1]);
                            assert(list@[i] == rest@[i - 1]);
                            assert(mapped(f, next@[i - 1], rest@[i - 1]));
                        } else {
                            assert(cloned(self@[0], given) && call_ensures(f, (given,), head));
                        }
                    }
                }
                list
            },
        }
    }

    /// A list of clones of the values, with `new_value` at the end.
    pub fn insert(&self, new_value: A) -> (list: LNode<A>)
        ensures
            list@.len() == self@.len() + 1,
            list@[self@.len() as int] == new_value,
            forall|i: int| 0 <= i < self@.len() ==> cloned(self@[i], #[trigger] list@[i]),
        decreases self,
    {
        match self {
            LNode::Null => LNode::Node(new_value, Box::new(LNode::Null)),
            LNode::Node(val, next) => {
                let rest = next.insert(new_value);
                let list = LNode::Node(val.clone(), Box::new(rest));
                proof {
                    assert forall|i: int| 0 <= i < self@.len() implies cloned(
                        self@[i],
                        #[trigger] list@[i],
                    ) by {
                        if i > 0 {
                            assert(self@[i] == next@[i - 1]);
                            assert(list@[i] == rest@[i - 1]);
                        }
                    }
                }
                list
            },
        }
    }

    /// The text of the list: `Node(v)->` for each value, with `v` as
    /// `Display` writes it, then `Null`.
    pub fn to_string(&self) -> (text: String)
        ensures
            exists|parts: Seq<String>|
                {
                    &&& parts.len() == self@.len()
                    &&& forall|i: int|
                        0 <= i < parts.len() ==> to_string_from_display_ensures::<A>(
                            &self@[i],
                            #[trigger] parts[i],
                        )
                    &&& text@ == #[trigger] rendered(parts)
                },
    {
        let mut ll: &LNode<A> = self;
        let mut parts: Vec<String> = Vec::new();
        loop
            invariant
                parts@.len() + ll@.len() == self@.len(),
                ll@ =~= self@.skip(parts@.len() as int),
                forall|i: int|
                    0 <= i < parts@.len() ==> to_string_from_display_ensures::<A>(
                        &self@[i],
                        #[trigger] parts@[i],
                    ),
            ensures
                parts@.len() == self@.len(),
                forall|i: int|
                    0 <= i < parts@.len() ==> to_string_from_display_ensures::<A>(
                        &self@[i],
                        #[trigger] parts@[i],
                    ),
            decreases ll@.len(),
        {
            match ll {
                LNode::Null => {
                    break;
                },
                LNode::Node(val, next) => {
                    proof {
                        assert(ll@ =~= seq![*val] + next@);
                        assert(self@[parts@.len() as int] == ll@[0]);
                        assert(next@ =~= ll@.skip(1));
                        assert(next@ =~= self@.skip(parts@.len() as int + 1));
                    }
                    parts.push(val.to_string());
                    ll = &**next;
                },
            }
        }
        render(&parts)
    }
}

impl<A: Clone + Display + Debug> From<&Vec<A>> for LNode<A> {
    /// The list of the values of `value`, in order; each value has been
    /// cloned once for every position from its own to the end.
    fn from(value: &Vec<A>) -> (list: Self)
        ensures
            list@.len() == value@.len(),
            forall|i: int|
                0 <= i < value@.len() ==> recloned(
                    value@[i],
                    #[trigger] list@[i],
                    (value@.len() - i) as nat,
                ),
    {
        let mut empty = LNode::empty();
        if value.is_empty() {
            return empty;
        }
        let mut k: usize = 0;
        while k < value.len()
            invariant
                k <= value@.len(),
                empty@.len() == k,
                forall|i: int|
                    0 <= i < k ==> recloned(value@[i], #[trigger] empty@[i], (k - i) as nat),
            decreases value.len() - k,
        {
            let c = value[k].clone();
            let longer = empty.insert(c);
            proof {
                assert forall|i: int| 0 <= i < k + 1 implies recloned(
                    value@[i],
                    #[trigger] longer@[i],
                    (k + 1 - i) as nat,
                ) by {
                    if i < k {
                        lemma_recloned_once_more(value@[i], empty@[i], longer@[i], (k - i) as nat);
                    } else {
                        assert(cloned(value@[i], c) && recloned(c, c, 0));
                    }
                }
            }
            empty = longer;
            k += 1;
        }
        empty
    }
}

impl<A: Clone + Display + Debug> FromSpecImpl<&Vec<A>> for LNode<A> {
    open spec fn obeys_from_spec() -> bool {
        false
    }

    open spec fn from_spec(v: &Vec<A>) -> Self {
        LNode::Null
    }
}

impl<A: Clone + Display> Clone for LNode<A> {
    /// A list of clones of the values, in order.
    fn clone(&self) -> (list: Self)
        ensures
            list@.len() == self@.len(),
            forall|i: int| 0 <= i < self@.len() ==> cloned(self@[i], #[trigger] list@[i]),
        decreases self,
    {
        match self {
            LNode::Null => LNode::Null,
            LNode::Node(a, next) => {
                let rest = (&**next).clone();
                let list = LNode::Node(a.clone(), Box::new(rest));
                proof {
                    assert forall|i: int| 0 <= i < self@.len() implies cloned(
                        self@[i],
                        #[trigger] list@[i],
                    ) by {
                        if i > 0 {
                            assert(self@[i] == next@[i - 1]);
                            assert(list@[i] == rest@[i - 1]);
                        }
                    }
                }
                list
            },
        }
    }
}

} // verus!

//! The values that evaluation works on, and the operators on them.
use crate::ast::Type;
use crate::chars::{copy_chars, laid, same_chars};
use crate::error::RuntimeError;
use crate::number::{Fraction, Number};
use vstd::prelude::*;
use vstd::std_specs::cmp::PartialEqSpecImpl;

verus! {

/// What a [`Value`] stands for.
pub enum Val {
    Number(Fraction),
    String(Seq<char>),
    Array(Seq<Val>),
    Tuple(Seq<Val>),
    Bool(bool),
}

/// A value of the language.
#[derive(Debug)]
pub enum Value {
    Number(Number),
    String(Vec<char>),
    Array(Vec<Value>),
    Tuple(Vec<Value>),
    Bool(bool),
}

/// What a sequence of values stands for, element by element.
pub open spec fn views(items: Seq<Value>) -> Seq<Val>
    decreases items,
{
    Seq::new(
        items.len(),
        |i: int|
            if 0 <= i < items.len() {
                items[i]@
            } else {
                Val::Bool(false)
            },
    )
}

/// What `views` is, item by item.
pub proof fn lemma_views(items: Seq<Value>)
    ensures
        views(items).len() == items.len(),
        forall|i: int| 0 <= i < items.len() ==> #[trigger] views(items)[i] == items[i]@,
{
}

impl View for Value {
    type V = Val;

    open spec fn view(&self) -> Val
        decreases self,
    {
        match self {
            Value::Number(n) => Val::Number(n@),
            Value::String(s) => Val::String(s@),
            Value::Array(items) => Val::Array(views(items@)),
            Value::Tuple(items) => Val::Tuple(views(items@)),
            Value::Bool(b) => Val::Bool(*b),
        }
    }
}

/// What the outcome of an evaluation stands for.
pub open spec fn outcome(r: Result<Value, RuntimeError>) -> Result<Val, RuntimeError> {
    match r {
        Ok(v) => Ok(v@),
        Err(e) => Err(e),
    }
}

impl Val {
    /// The kind of the value.
    pub open spec fn kind(self) -> Type {
        match self {
            Val::Number(_) => Type::Number,
            Val::String(_) => Type::String,
            Val::Array(_) => Type::Array,
            Val::Tuple(_) => Type::Tuple,
            Val::Bool(_) => Type::Bool,
        }
    }

    /// Every number in the value is in lowest terms and within the limit.
    pub open spec fn wf(self) -> bool
        decreases self,
    {
        match self {
            Val::Number(n) => n.wf(),
            Val::Array(items) => forall|i: int| 0 <= i < items.len() ==> (#[trigger] items[i]).wf(),
            Val::Tuple(items) => forall|i: int| 0 <= i < items.len() ==> (#[trigger] items[i]).wf(),
            _ => true,
        }
    }

    /// A string taken apart into strings of one character each.
    pub open spec fn letters(s: Seq<char>) -> Seq<Val> {
        Seq::new(s.len(), |i: int| Val::String(seq![s[i]]))
    }

    /// Strings joined into one. There is none where an item is no string.
    pub open spec fn joined(items: Seq<Val>) -> Option<Seq<char>>
        decreases items.len(),
    {
        if items.len() == 0 {
            Some(Seq::empty())
        } else {
            match (Val::joined(items.drop_last()), items.last()) {
                (Some(front), Val::String(s)) => Some(front + s),
                _ => None,
            }
        }
    }

    /// The value as one of type `to`, where it is of type `from`.
    ///
    /// A number becomes the string that writes it out, and a string the
    /// number that it says (not a number, where it says none). A string
    /// becomes the array or tuple of its characters, each a string, and an
    /// array or tuple of strings becomes them joined. A boolean becomes the
    /// string `true` or `false`. No other cast between two types exists.
    pub open spec fn cast(self, to: Type, from: Type) -> Result<Val, RuntimeError> {
        if from != self.kind() {
            Err(RuntimeError::TypeMismatchT(from, self.kind()))
        } else if to == from {
            Ok(self)
        } else {
            match (to, self) {
                (Type::Number, Val::String(s)) => Ok(Val::Number(Fraction::parse(s))),
                (Type::String, Val::Number(n)) => Ok(Val::String(n.text())),
                (Type::String, Val::Bool(b)) => Ok(
                    Val::String(
                        if b {
                            seq!['t', 'r', 'u', 'e']
                        } else {
                            seq!['f', 'a', 'l', 's', 'e']
                        },
                    ),
                ),
                (Type::String, Val::Array(items)) => match Val::joined(items) {
                    Some(s) => Ok(Val::String(s)),
                    None => Err(RuntimeError::ValueErrorT),
                },
                (Type::String, Val::Tuple(items)) => match Val::joined(items) {
                    Some(s) => Ok(Val::String(s)),
                    None => Err(RuntimeError::ValueErrorT),
                },
                (Type::Array, Val::String(s)) => Ok(Val::Array(Val::letters(s))),
                (Type::Tuple, Val::String(s)) => Ok(Val::Tuple(Val::letters(s))),
                _ => Err(RuntimeError::ValueErrorT),
            }
        }
    }

    /// `self + other`: the sum of numbers, or strings or arrays joined.
    pub open spec fn sum(self, other: Val) -> Result<Val, RuntimeError> {
        match (self, other) {
            (Val::Number(a), Val::Number(b)) => Ok(Val::Number(a.added(b))),
            (Val::String(a), Val::String(b)) => Ok(Val::String(a + b)),
            (Val::Array(a), Val::Array(b)) => Ok(Val::Array(a + b)),
            _ => Err(RuntimeError::ValueErrorT),
        }
    }

    /// `self - other`, of numbers.
    pub open spec fn difference(self, other: Val) -> Result<Val, RuntimeError> {
        match (self, other) {
            (Val::Number(a), Val::Number(b)) => Ok(Val::Number(a.subtracted(b))),
            _ => Err(RuntimeError::ValueErrorT),
        }
    }

    /// Nothing of a string or an array; there is no such thing of another
    /// value.
    pub open spec fn none_of(self) -> Result<Val, RuntimeError> {
        match self {
            Val::String(_) => Ok(Val::String(Seq::empty())),
            Val::Array(_) => Ok(Val::Array(Seq::empty())),
            _ => Err(RuntimeError::ValueErrorT),
        }
    }

    /// `item` added to `sum` `times` times.
    pub open spec fn copies(sum: Val, item: Val, times: nat) -> Result<Val, RuntimeError>
        decreases times,
    {
        if times == 0 {
            Ok(sum)
        } else {
            match sum.sum(item) {
                Ok(more) => Val::copies(more, item, (times - 1) as nat),
                Err(e) => Err(e),
            }
        }
    }

    /// The value repeated `n` times, where `n` is a whole number from 0:
    /// nothing of it for 0, the value for 1, and for more the value added to
    /// itself.
    pub open spec fn replicated(self, n: Fraction) -> Result<Val, RuntimeError> {
        match n.count() {
            Some(times) => if times == 0 {
                self.none_of()
            } else {
                Val::copies(self, self, (times - 1) as nat)
            },
            None => Err(RuntimeError::ValueErrorT),
        }
    }

    /// `self * other`: the product of numbers, or a value repeated as often
    /// as a number on either side says.
    pub open spec fn product(self, other: Val) -> Result<Val, RuntimeError> {
        match (self, other) {
            (Val::Number(a), Val::Number(b)) => Ok(Val::Number(a.multiplied(b))),
            (Val::Number(n), item) => item.replicated(n),
            (item, Val::Number(n)) => item.replicated(n),
            _ => Err(RuntimeError::ValueErrorT),
        }
    }

    /// `self / other`, of numbers.
    pub open spec fn quotient(self, other: Val) -> Result<Val, RuntimeError> {
        match (self, other) {
            (Val::Number(a), Val::Number(b)) => Ok(Val::Number(a.divided(b))),
            _ => Err(RuntimeError::ValueErrorT),
        }
    }

    /// `self && other`, of booleans.
    pub open spec fn conjunction(self, other: Val) -> Result<Val, RuntimeError> {
        match (self, other) {
            (Val::Bool(a), Val::Bool(b)) => Ok(Val::Bool(a && b)),
            _ => Err(RuntimeError::ValueErrorT),
        }
    }

    /// `self || other`, of booleans.
    pub open spec fn disjunction(self, other: Val) -> Result<Val, RuntimeError> {
        match (self, other) {
            (Val::Bool(a), Val::Bool(b)) => Ok(Val::Bool(a || b)),
            _ => Err(RuntimeError::ValueErrorT),
        }
    }
}

/// Copies of `items`, appended to `out`.
pub fn extend_with_copies(out: &mut Vec<Value>, items: &Vec<Value>)
    ensures
        views(final(out)@) == views(old(out)@) + views(items@),
    decreases items,
{
    let mut i: usize = 0;
    while i < items.len()
        invariant
            i <= items.len(),
            views(out@) == views(old(out)@) + views(items@.subrange(0, i as int)),
        decreases items.len() - i,
    {
        let ghost before = out@;
        out.push(items[i].duplicate());
        proof {
            assert(views(out@) =~= views(before) + seq![items@[i as int]@]);
            assert(views(items@.subrange(0, i + 1)) =~= views(items@.subrange(0, i as int))
                + seq![items@[i as int]@]);
        }
        i = i + 1;
    }
    assert(items@.subrange(0, items.len() as int) =~= items@);
}

/// Whether two sequences of values are the same, element by element.
pub fn same_items(a: &Vec<Value>, b: &Vec<Value>) -> (r: bool)
    ensures
        r == (views(a@) == views(b@)),
    decreases a,
{
    if a.len() != b.len() {
        assert(views(a@).len() != views(b@).len());
        return false;
    }
    let mut i: usize = 0;
    while i < a.len()
        invariant
            i <= a.len(),
            a.len() == b.len(),
            forall|j: int| 0 <= j < i ==> a@[j]@ == b@[j]@,
        decreases a.len() - i,
    {
        if !a[i].same(&b[i]) {
            assert(views(a@)[i as int] != views(b@)[i as int]);
            return false;
        }
        i = i + 1;
    }
    assert(views(a@) =~= views(b@));
    true
}

impl Value {
    /// A copy of the value.
    pub fn duplicate(&self) -> (r: Value)
        ensures
            r@ == self@,
        decreases self,
    {
        match self {
            Value::Number(n) => Value::Number(*n),
            Value::String(s) => Value::String(copy_chars(s)),
            Value::Array(items) => {
                let mut out: Vec<Value> = Vec::new();
                extend_with_copies(&mut out, items);
                assert(views(out@) =~= views(items@));
                Value::Array(out)
            },
            Value::Tuple(items) => {
                let mut out: Vec<Value> = Vec::new();
                extend_with_copies(&mut out, items);
                assert(views(out@) =~= views(items@));
                Value::Tuple(out)
            },
            Value::Bool(b) => Value::Bool(*b),
        }
    }

    /// Whether two values are the same: of one kind and with the same
    /// content.
    pub fn same(&self, other: &Value) -> (r: bool)
        ensures
            r == (self@ == other@),
        decreases self,
    {
        match (self, other) {
            (Value::Number(a), Value::Number(b)) => a.same(b),
            (Value::String(a), Value::String(b)) => same_chars(a, b),
            (Value::Array(a), Value::Array(b)) => same_items(a, b),
            (Value::Tuple(a), Value::Tuple(b)) => same_items(a, b),
            (Value::Bool(a), Value::Bool(b)) => *a == *b,
            _ => false,
        }
    }

    /// The kind of the value.
    pub fn to_type(&self) -> (r: Type)
        ensures
            r == self@.kind(),
    {
        match self {
            Value::String(_) => Type::String,
            Value::Number(_) => Type::Number,
            Value::Tuple(_) => Type::Tuple,
            Value::Array(_) => Type::Array,
            Value::Bool(_) => Type::Bool,
        }
    }

    /// Every number in a value is in lowest terms and within the limit.
    pub fn well_formed(&self)
        ensures
            self@.wf(),
        decreases self,
    {
        match self {
            Value::Number(n) => {
                n.is_nan();
            },
            Value::Array(items) => {
                items_well_formed(items);
                assert(self@ == Val::Array(views(items@)));
            },
            Value::Tuple(items) => {
                items_well_formed(items);
                assert(self@ == Val::Tuple(views(items@)));
            },
            _ => {},
        }
    }

    /// The value as one of type `to`, where it is of type `from`: a type
    /// mismatch where it is of another type, a value error where no such cast
    /// exists.
    pub fn cast(&self, to: &Type, from: &Type) -> (r: Result<Value, RuntimeError>)
        ensures
            outcome(r) == self@.cast(*to, *from),
    {
        let actual = self.to_type();
        if *from != actual {
            return Err(RuntimeError::TypeMismatchT(*from, actual));
        }
        if *to == actual {
            return Ok(self.duplicate());
        }
        match (to, self) {
            (Type::Number, Value::String(s)) => Ok(Value::Number(Number::parse(s))),
            (Type::String, Value::Number(n)) => Ok(Value::String(n.to_chars())),
            (Type::String, Value::Bool(b)) => {
                let mut out: Vec<char> = Vec::new();
                if *b {
                    out.push('t');
                    out.push('r');
                    out.push('u');
                    out.push('e');
                    assert(out@ =~= seq!['t', 'r', 'u', 'e']);
                } else {
                    out.push('f');
                    out.push('a');
                    out.push('l');
                    out.push('s');
                    out.push('e');
                    assert(out@ =~= seq!['f', 'a', 'l', 's', 'e']);
                }
                Ok(Value::String(out))
            },
            (Type::String, Value::Array(items)) => match join_strings(items) {
                Some(s) => Ok(Value::String(s)),
                None => Err(RuntimeError::ValueErrorT),
            },
            (Type::String, Value::Tuple(items)) => match join_strings(items) {
                Some(s) => Ok(Value::String(s)),
                None => Err(RuntimeError::ValueErrorT),
            },
            (Type::Array, Value::String(s)) => Ok(Value::Array(split_letters(s))),
            (Type::Tuple, Value::String(s)) => Ok(Value::Tuple(split_letters(s))),
            _ => Err(RuntimeError::ValueErrorT),
        }
    }

    /// The sum of two numbers, or two strings or two arrays joined.
    pub fn add(&self, other: &Value) -> (r: Result<Value, RuntimeError>)
        ensures
            outcome(r) == self@.sum(other@),
    {
        match (self, other) {
            (Value::Number(lhs), Value::Number(rhs)) => Ok(Value::Number(lhs.add(rhs))),
            (Value::String(lhs), Value::String(rhs)) => {
                let mut out = copy_chars(lhs);
                let mut i: usize = 0;
                while i < rhs.len()
                    invariant
                        i <= rhs.len(),
                        out@ == lhs@ + rhs@.subrange(0, i as int),
                    decreases rhs.len() - i,
                {
                    out.push(rhs[i]);
                    i = i + 1;
                }
                assert(rhs@.subrange(0, rhs.len() as int) =~= rhs@);
                Ok(Value::String(out))
            },
            (Value::Array(lhs), Value::Array(rhs)) => {
                let mut out: Vec<Value> = Vec::new();
                extend_with_copies(&mut out, lhs);
                extend_with_copies(&mut out, rhs);
                assert(views(out@) =~= views(lhs@) + views(rhs@));
                Ok(Value::Array(out))
            },
            _ => Err(RuntimeError::ValueErrorT),
        }
    }

    /// The value repeated `n` times: a value error where `n` is no whole
    /// number from 0, or the value cannot be added to itself as often as
    /// that.
    pub fn replicated(&self, n: &Number) -> (r: Result<Value, RuntimeError>)
        ensures
            outcome(r) == self@.replicated(n@),
    {
        let times = match n.count() {
            Some(times) => times,
            None => {
                return Err(RuntimeError::ValueErrorT);
            },
        };
        if times == 0 {
            return match self {
                Value::String(_) => Ok(Value::String(Vec::new())),
                Value::Array(_) => {
                    let none: Vec<Value> = Vec::new();
                    assert(views(none@) =~= Seq::<Val>::empty());
                    Ok(Value::Array(none))
                },
                _ => Err(RuntimeError::ValueErrorT),
            };
        }
        let mut sum = self.duplicate();
        let mut left_over: usize = times - 1;
        while left_over > 0
            invariant
                self@.replicated(n@) == Val::copies(self@, self@, (times - 1) as nat),
                Val::copies(sum@, self@, left_over as nat) == Val::copies(
                    self@,
                    self@,
                    (times - 1) as nat,
                ),
            decreases left_over,
        {
            sum = match sum.add(self) {
                Ok(more) => more,
                Err(e) => {
                    return Err(e);
                },
            };
            left_over = left_over - 1;
        }
        Ok(sum)
    }

    /// The product of two numbers, or a value repeated as often as a number
    /// on either side says.
    pub fn mul(&self, other: &Value) -> (r: Result<Value, RuntimeError>)
        ensures
            outcome(r) == self@.product(other@),
    {
        match (self, other) {
            (Value::Number(lhs), Value::Number(rhs)) => Ok(Value::Number(lhs.mul(rhs))),
            (Value::Number(n), item) => item.replicated(n),
            (item, Value::Number(n)) => item.replicated(n),
            _ => Err(RuntimeError::ValueErrorT),
        }
    }

    /// The difference of two numbers.
    pub fn sub(&self, other: &Value) -> (r: Result<Value, RuntimeError>)
        ensures
            outcome(r) == self@.difference(other@),
    {
        match (self, other) {
            (Value::Number(lhs), Value::Number(rhs)) => Ok(Value::Number(lhs.sub(rhs))),
            _ => Err(RuntimeError::ValueErrorT),
        }
    }

    /// The quotient of two numbers.
    pub fn div(&self, other: &Value) -> (r: Result<Value, RuntimeError>)
        ensures
            outcome(r) == self@.quotient(other@),
    {
        match (self, other) {
            (Value::Number(lhs), Value::Number(rhs)) => Ok(Value::Number(lhs.div(rhs))),
            _ => Err(RuntimeError::ValueErrorT),
        }
    }

    /// Whether both booleans hold.
    pub fn and(&self, other: &Value) -> (r: Result<Value, RuntimeError>)
        ensures
            outcome(r) == self@.conjunction(other@),
    {
        match (self, other) {
            (Value::Bool(lhs), Value::Bool(rhs)) => Ok(Value::Bool(*lhs && *rhs)),
            _ => Err(RuntimeError::ValueErrorT),
        }
    }

    /// Whether one of two booleans holds.
    pub fn or(&self, other: &Value) -> (r: Result<Value, RuntimeError>)
        ensures
            outcome(r) == self@.disjunction(other@),
    {
        match (self, other) {
            (Value::Bool(lhs), Value::Bool(rhs)) => Ok(Value::Bool(*lhs || *rhs)),
            _ => Err(RuntimeError::ValueErrorT),
        }
    }
}

/// Copies of the values of `a` from `from` to `to`.
pub fn slice_items(a: &Vec<Value>, from: usize, to: usize) -> (r: Vec<Value>)
    requires
        from <= to <= a.len(),
    ensures
        views(r@) == views(a@).subrange(from as int, to as int),
{
    let mut out: Vec<Value> = Vec::new();
    let mut i: usize = from;
    while i < to
        invariant
            from <= i <= to <= a.len(),
            out@.len() == i - from,
            forall|j: int| 0 <= j < i - from ==> out@[j]@ == a@[from + j]@,
        decreases to - i,
    {
        out.push(a[i].duplicate());
        i = i + 1;
    }
    assert(views(out@) =~= views(a@).subrange(from as int, to as int));
    out
}

/// Whether the values of `part` stand in `a` at `at`.
pub fn items_at(a: &Vec<Value>, at: usize, part: &Vec<Value>) -> (r: bool)
    requires
        at + part.len() <= a.len(),
    ensures
        r == (views(a@).subrange(at as int, at + part.len()) == views(part@)),
{
    let mut i: usize = 0;
    while i < part.len()
        invariant
            i <= part.len(),
            at + part.len() <= a.len(),
            forall|j: int| 0 <= j < i ==> a@[at + j]@ == part@[j]@,
        decreases part.len() - i,
    {
        if !a[at + i].same(&part[i]) {
            assert(views(a@).subrange(at as int, at + part.len())[i as int] != views(
                part@,
            )[i as int]);
            return false;
        }
        i = i + 1;
    }
    assert(views(a@).subrange(at as int, at + part.len()) =~= views(part@));
    true
}

/// Whether every value of `a` is the one that `tile`, laid end to end, has at
/// that place.
pub fn items_repeat(a: &Vec<Value>, tile: &Vec<Value>) -> (r: bool)
    requires
        tile.len() > 0,
    ensures
        r == (forall|i: int|
            0 <= i < a.len() ==> #[trigger] laid(views(tile@), i) == views(a@)[i]),
{
    let mut i: usize = 0;
    proof {
        lemma_views(a@);
        lemma_views(tile@);
    }
    while i < a.len()
        invariant
            i <= a.len(),
            tile.len() > 0,
            views(tile@).len() == tile.len(),
            forall|j: int| 0 <= j < i ==> #[trigger] laid(views(tile@), j) == views(a@)[j],
        decreases a.len() - i,
    {
        proof {
            lemma_views(a@);
            lemma_views(tile@);
        }
        if !a[i].same(&tile[i % tile.len()]) {
            assert(laid(views(tile@), i as int) != views(a@)[i as int]);
            return false;
        }
        assert(laid(views(tile@), i as int) == views(a@)[i as int]);
        i = i + 1;
    }
    true
}

/// The strings of `items` joined into one, where all of them are strings.
pub fn join_strings(items: &Vec<Value>) -> (r: Option<Vec<char>>)
    ensures
        match r {
            Some(s) => Val::joined(views(items@)) == Some(s@),
            None => Val::joined(views(items@)) is None,
        },
{
    let mut out: Vec<char> = Vec::new();
    let mut i: usize = 0;
    while i < items.len()
        invariant
            i <= items.len(),
            Val::joined(views(items@).subrange(0, i as int)) == Some(out@),
        decreases items.len() - i,
    {
        let ghost front = views(items@).subrange(0, i as int);
        let ghost more = views(items@).subrange(0, i + 1);
        proof {
            assert(more.drop_last() =~= front);
            assert(more.last() == items@[i as int]@);
        }
        match &items[i] {
            Value::String(s) => {
                let mut j: usize = 0;
                let ghost start = out@;
                while j < s.len()
                    invariant
                        j <= s.len(),
                        out@ == start + s@.subrange(0, j as int),
                    decreases s.len() - j,
                {
                    out.push(s[j]);
                    j = j + 1;
                }
                assert(s@.subrange(0, s.len() as int) =~= s@);
            },
            _ => {
                proof {
                    lemma_joined_prefix(views(items@), i + 1);
                }
                return None;
            },
        }
        i = i + 1;
    }
    assert(views(items@).subrange(0, items.len() as int) =~= views(items@));
    Some(out)
}

/// Where the first `n` items cannot be joined, all of them cannot.
proof fn lemma_joined_prefix(items: Seq<Val>, n: int)
    requires
        0 <= n <= items.len(),
        Val::joined(items.subrange(0, n)) is None,
    ensures
        Val::joined(items) is None,
    decreases items.len(),
{
    if n < items.len() {
        assert(items.drop_last().subrange(0, n) =~= items.subrange(0, n));
        lemma_joined_prefix(items.drop_last(), n);
    } else {
        assert(items.subrange(0, n) =~= items);
    }
}

/// The characters of `s`, each as a string of its own.
pub fn split_letters(s: &Vec<char>) -> (r: Vec<Value>)
    ensures
        views(r@) == Val::letters(s@),
{
    let mut out: Vec<Value> = Vec::new();
    let mut i: usize = 0;
    while i < s.len()
        invariant
            i <= s.len(),
            out@.len() == i,
            forall|j: int| 0 <= j < i ==> out@[j]@ == Val::String(seq![s@[j]]),
        decreases s.len() - i,
    {
        let mut one: Vec<char> = Vec::new();
        one.push(s[i]);
        assert(one@ =~= seq![s@[i as int]]);
        out.push(Value::String(one));
        i = i + 1;
    }
    assert(views(out@) =~= Val::letters(s@));
    out
}

/// Every number in a sequence of values is in lowest terms and within the
/// limit.
pub fn items_well_formed(items: &Vec<Value>)
    ensures
        forall|i: int| 0 <= i < items.len() ==> (#[trigger] views(items@)[i]).wf(),
    decreases items,
{
    let mut i: usize = 0;
    while i < items.len()
        invariant
            i <= items.len(),
            forall|j: int| 0 <= j < i ==> (#[trigger] views(items@)[j]).wf(),
        decreases items.len() - i,
    {
        items[i].well_formed();
        i = i + 1;
    }
}

impl PartialEq for Value {
    fn eq(&self, other: &Value) -> (r: bool) {
        self.same(other)
    }
}

impl PartialEqSpecImpl for Value {
    open spec fn obeys_eq_spec() -> bool {
        true
    }

    open spec fn eq_spec(&self, other: &Value) -> bool {
        self@ == other@
    }
}

} // verus!

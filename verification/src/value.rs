//! Runtime values of the interpreter and the ordered property map that holds
//! object properties and variables.
use vstd::prelude::*;
use crate::double::{Double, spec_trunc, spec_trunc_mag, spec_clamp, spec_pow2, spec_exp_field, spec_frac_field};
use crate::parser::Stmt;
use crate::text::{spec_str_less, str_less, slices_eq, slice_range, str_to_chars, push_all, push_str};
use crate::astclone::{clone_chars, clone_names, clone_opt_chars, clone_stmts};
use crate::numfmt::{format_number, is_finite_nonzero, spec_is_integral, spec_int_dec};
use crate::double::spec_int_part;
use crate::numparse::{parse_float_simple, starts_with_str, u64_from_radix, plain_digits, digits_value, spec_digit_of};
use crate::double::{spec_is_int_value, safe_limit};

verus! {

// ---------------------------------------------------------------------------
// Order of keys
// ---------------------------------------------------------------------------

pub proof fn lemma_str_less_irreflexive(a: Seq<char>)
    ensures
        !spec_str_less(a, a),
    decreases a.len(),
{
    if a.len() > 0 {
        lemma_str_less_irreflexive(a.drop_first());
    }
}

pub proof fn lemma_str_less_transitive(a: Seq<char>, b: Seq<char>, c: Seq<char>)
    requires
        spec_str_less(a, b),
        spec_str_less(b, c),
    ensures
        spec_str_less(a, c),
    decreases a.len(),
{
    if a.len() > 0 && b.len() > 0 && c.len() > 0 {
        if a[0] == b[0] && b[0] == c[0] {
            lemma_str_less_transitive(a.drop_first(), b.drop_first(), c.drop_first());
        }
    }
}

pub proof fn lemma_str_less_total(a: Seq<char>, b: Seq<char>)
    requires
        a != b,
    ensures
        spec_str_less(a, b) || spec_str_less(b, a),
    decreases a.len(),
{
    if a.len() == 0 {
        assert(b.len() > 0) by {
            if b.len() == 0 {
                assert(a =~= b);
            }
        }
    } else if b.len() == 0 {
    } else if a[0] != b[0] {
        if (a[0] as u32) == (b[0] as u32) {
            vstd::utf8::char_u32_cast(a[0], a[0] as u32);
            vstd::utf8::char_u32_cast(b[0], b[0] as u32);
        }
    } else {
        if a.drop_first() == b.drop_first() {
            assert(a =~= seq![a[0]] + a.drop_first());
            assert(b =~= seq![b[0]] + b.drop_first());
        }
        lemma_str_less_total(a.drop_first(), b.drop_first());
    }
}

// ---------------------------------------------------------------------------
// Values
// ---------------------------------------------------------------------------

/// A JavaScript value.
pub enum Value {
    Number(Double),
    Str(Vec<char>),
    Bool(bool),
    Null,
    Undefined,
    Array(Vec<Value>),
    Object(PropMap),
    Function(JsFunction),
    Regex(Vec<char>, Vec<char>),
}

/// A function value: its code and the variables it captured when it was created.
pub struct JsFunction {
    pub name: Option<Vec<char>>,
    pub params: Vec<Vec<char>>,
    pub body: Vec<Stmt>,
    pub closure: PropMap,
}

/// Properties (or variables) by name, kept in ascending order of their names, with
/// no name twice.
pub struct PropMap {
    entries: Vec<(Vec<char>, Value)>,
}

pub open spec fn keys_sorted(e: Seq<(Vec<char>, Value)>) -> bool {
    forall|i: int, j: int|
        0 <= i < j < e.len() ==> spec_str_less(#[trigger] e[i].0@, #[trigger] e[j].0@)
}

pub open spec fn key_at(e: Seq<(Vec<char>, Value)>, k: Seq<char>, i: int) -> bool {
    0 <= i < e.len() && e[i].0@ == k
}

/// The value stored under `k`, if any.
pub open spec fn lookup(e: Seq<(Vec<char>, Value)>, k: Seq<char>) -> Option<Value> {
    if exists|i: int| key_at(e, k, i) {
        Some(e[choose|i: int| key_at(e, k, i)].1)
    } else {
        None
    }
}

proof fn lemma_lookup_at(e: Seq<(Vec<char>, Value)>, k: Seq<char>, i: int)
    requires
        keys_sorted(e),
        key_at(e, k, i),
    ensures
        lookup(e, k) == Some(e[i].1),
{
    let j = choose|j: int| key_at(e, k, j);
    assert(key_at(e, k, j));
    if i < j {
        assert(spec_str_less(e[i].0@, e[j].0@));
        lemma_str_less_irreflexive(k);
    } else if j < i {
        assert(spec_str_less(e[j].0@, e[i].0@));
        lemma_str_less_irreflexive(k);
    }
}

impl PropMap {
    #[verifier::type_invariant]
    spec fn inv(self) -> bool {
        keys_sorted(self.entries@)
    }

    /// The entries, in ascending order of their names.
    pub closed spec fn seq(self) -> Seq<(Vec<char>, Value)> {
        self.entries@
    }

    pub open spec fn get_spec(self, k: Seq<char>) -> Option<Value> {
        lookup(self.seq(), k)
    }

    pub fn new() -> (r: PropMap)
        ensures
            r.seq().len() == 0,
            forall|k: Seq<char>| r.get_spec(k) is None,
    {
        PropMap { entries: Vec::new() }
    }

    pub fn len(&self) -> (r: usize)
        ensures
            r == self.seq().len(),
    {
        self.entries.len()
    }

    pub fn is_empty(&self) -> (r: bool)
        ensures
            r == (self.seq().len() == 0),
    {
        self.entries.len() == 0
    }

    /// The name of the `i`-th entry.
    pub fn key_at(&self, i: usize) -> (r: &Vec<char>)
        requires
            i < self.seq().len(),
        ensures
            *r == self.seq()[i as int].0,
            self.get_spec(r@) == Some(self.seq()[i as int].1),
    {
        proof {
            use_type_invariant(self);
            lemma_lookup_at(self.entries@, self.entries@[i as int].0@, i as int);
        }
        &self.entries[i].0
    }

    /// The value of the `i`-th entry.
    pub fn value_at(&self, i: usize) -> (r: &Value)
        requires
            i < self.seq().len(),
        ensures
            *r == self.seq()[i as int].1,
    {
        &self.entries[i].1
    }

    /// Position of the entry named `k`.
    fn find(&self, k: &[char]) -> (r: Option<usize>)
        ensures
            r matches Some(i) ==> key_at(self.seq(), k@, i as int),
            r is None ==> forall|i: int| !key_at(self.seq(), k@, i),
    {
        let mut i: usize = 0;
        while i < self.entries.len()
            invariant
                0 <= i <= self.entries@.len(),
                forall|j: int| 0 <= j < i ==> !key_at(self.entries@, k@, j),
            decreases self.entries.len() - i,
        {
            if slices_eq(self.entries[i].0.as_slice(), k) {
                return Some(i);
            }
            i = i + 1;
        }
        None
    }

    /// The value stored under `k`.
    pub fn get(&self, k: &[char]) -> (r: Option<&Value>)
        ensures
            r matches Some(v) ==> self.get_spec(k@) == Some(*v),
            r is None ==> self.get_spec(k@) is None,
    {
        proof {
            use_type_invariant(self);
        }
        match self.find(k) {
            Some(i) => {
                proof {
                    lemma_lookup_at(self.entries@, k@, i as int);
                }
                Some(&self.entries[i].1)
            },
            None => None,
        }
    }

    pub fn contains_key(&self, k: &[char]) -> (r: bool)
        ensures
            r == self.get_spec(k@) is Some,
    {
        self.get(k).is_some()
    }

    /// Copies every entry of `other` into this map, replacing the values under names
    /// that both have.
    pub fn extend_from(&mut self, other: &PropMap)
        ensures
            forall|k: Seq<char>| #[trigger] other.get_spec(k) is Some ==> opt_equiv(other.get_spec(k), final(self).get_spec(k)),
            forall|k: Seq<char>| #[trigger] other.get_spec(k) is None ==> final(self).get_spec(k) == old(self).get_spec(k),
    {
        proof {
            use_type_invariant(other);
        }
        let ghost o = other.entries@;
        let mut j: usize = 0;
        while j < other.entries.len()
            invariant
                0 <= j <= o.len(),
                o == other.entries@,
                keys_sorted(o),
                forall|k: Seq<char>| (exists|jj: int| 0 <= jj < j && #[trigger] key_at(o, k, jj)) ==> opt_equiv(
                    lookup(o, k),
                    #[trigger] self.get_spec(k),
                ),
                forall|k: Seq<char>| !(exists|jj: int| 0 <= jj < j && #[trigger] key_at(o, k, jj)) ==> #[trigger] self.get_spec(k)
                    == old(self).get_spec(k),
            decreases o.len() - j,
        {
            let key = clone_chars(&other.entries[j].0);
            let val = clone_value(&other.entries[j].1);
            let ghost kj = key@;
            proof {
                lemma_lookup_at(o, kj, j as int);
            }
            let ghost before = *self;
            self.insert(key, val);
            proof {
                assert forall|k: Seq<char>| (exists|jj: int| 0 <= jj < j + 1 && #[trigger] key_at(o, k, jj)) implies opt_equiv(
                    lookup(o, k),
                    #[trigger] self.get_spec(k),
                ) by {
                    if k != kj {
                        let jj = choose|jj: int| 0 <= jj < j + 1 && key_at(o, k, jj);
                        assert(jj != j);
                        assert(exists|jj: int| 0 <= jj < j && #[trigger] key_at(o, k, jj));
                    }
                }
                assert forall|k: Seq<char>| !(exists|jj: int| 0 <= jj < j + 1 && #[trigger] key_at(o, k, jj)) implies #[trigger] self.get_spec(k)
                    == old(self).get_spec(k) by {
                    assert(!key_at(o, k, j as int));
                    assert(k != kj);
                    assert(!(exists|jj: int| 0 <= jj < j && #[trigger] key_at(o, k, jj)));
                }
            }
            j = j + 1;
        }
        proof {
            assert forall|k: Seq<char>| #[trigger] other.get_spec(k) is Some implies opt_equiv(
                other.get_spec(k),
                self.get_spec(k),
            ) by {
                let jj = choose|jj: int| key_at(o, k, jj);
                assert(0 <= jj < j && key_at(o, k, jj));
            }
            assert forall|k: Seq<char>| #[trigger] other.get_spec(k) is None implies self.get_spec(k) == old(self).get_spec(k) by {
                if exists|jj: int| 0 <= jj < j && #[trigger] key_at(o, k, jj) {
                    let jj = choose|jj: int| 0 <= jj < j && #[trigger] key_at(o, k, jj);
                    assert(key_at(o, k, jj));
                }
            }
        }
    }

    /// Stores `v` under `k`, replacing the value there was.
    pub fn insert(&mut self, k: Vec<char>, v: Value)
        ensures
            final(self).get_spec(k@) == Some(v),
            forall|k2: Seq<char>| k2 != k@ ==> final(self).get_spec(k2) == old(self).get_spec(k2),
            final(self).seq().len() == old(self).seq().len() + (if old(self).get_spec(k@) is Some {
                0int
            } else {
                1int
            }),
    {
        proof {
            use_type_invariant(&*self);
        }
        let ghost old_e = self.entries@;
        let mut i: usize = 0;
        while i < self.entries.len() && str_less(self.entries[i].0.as_slice(), k.as_slice())
            invariant
                0 <= i <= self.entries@.len(),
                self.entries@ == old_e,
                keys_sorted(old_e),
                forall|j: int| 0 <= j < i ==> spec_str_less(#[trigger] old_e[j].0@, k@),
            decreases self.entries.len() - i,
        {
            i = i + 1;
        }
        let n = self.entries.len();
        let ghost kk = k@;
        if i < n && slices_eq(self.entries[i].0.as_slice(), k.as_slice()) {
            proof {
                lemma_lookup_at(old_e, kk, i as int);
            }
            let mut entries: Vec<(Vec<char>, Value)> = Vec::new();
            std::mem::swap(&mut entries, &mut self.entries);
            entries.set(i, (k, v));
            let ghost ne = entries@;
            assert(keys_sorted(ne)) by {
                assert forall|a: int, b: int| 0 <= a < b < ne.len() implies spec_str_less(
                    #[trigger] ne[a].0@,
                    #[trigger] ne[b].0@,
                ) by {
                    assert(spec_str_less(old_e[a].0@, old_e[b].0@));
                }
            }
            self.entries = entries;
            proof {
                lemma_lookup_at(ne, kk, i as int);
                assert forall|k2: Seq<char>| k2 != kk implies lookup(ne, k2) == lookup(
                    old_e,
                    k2,
                ) by {
                    if exists|j: int| key_at(old_e, k2, j) {
                        let j = choose|j: int| key_at(old_e, k2, j);
                        lemma_lookup_at(old_e, k2, j);
                        lemma_lookup_at(ne, k2, j);
                    } else {
                        assert forall|j: int| !key_at(ne, k2, j) by {
                            if key_at(ne, k2, j) {
                                assert(key_at(old_e, k2, j));
                            }
                        }
                    }
                }
            }
        } else {
            proof {
                assert forall|j: int| !key_at(old_e, kk, j) by {
                    if key_at(old_e, kk, j) {
                        if j < i {
                            lemma_str_less_irreflexive(kk);
                        } else if j > i {
                            // old_e[i] < old_e[j] == k, and k <= old_e[i]
                            assert(spec_str_less(old_e[i as int].0@, old_e[j].0@));
                            if old_e[i as int].0@ != kk {
                                lemma_str_less_total(old_e[i as int].0@, kk);
                            }
                            lemma_str_less_irreflexive(kk);
                        }
                    }
                }
                if i < n {
                    lemma_str_less_total(old_e[i as int].0@, kk);
                }
            }
            let mut entries: Vec<(Vec<char>, Value)> = Vec::new();
            std::mem::swap(&mut entries, &mut self.entries);
            entries.insert(i, (k, v));
            let ghost ne = entries@;
            assert(keys_sorted(ne)) by {
                assert forall|a: int, b: int| 0 <= a < b < ne.len() implies spec_str_less(
                    #[trigger] ne[a].0@,
                    #[trigger] ne[b].0@,
                ) by {
                    if b < i {
                        assert(spec_str_less(old_e[a].0@, old_e[b].0@));
                    } else if b == i {
                        assert(spec_str_less(old_e[a].0@, kk));
                    } else if a < i {
                        assert(spec_str_less(old_e[a].0@, kk));
                        assert(spec_str_less(kk, old_e[i as int].0@));
                        if b - 1 > i {
                            assert(spec_str_less(old_e[i as int].0@, old_e[b - 1].0@));
                            lemma_str_less_transitive(kk, old_e[i as int].0@, old_e[b - 1].0@);
                        }
                        lemma_str_less_transitive(old_e[a].0@, kk, old_e[b - 1].0@);
                    } else if a == i {
                        assert(spec_str_less(kk, old_e[i as int].0@));
                        if b - 1 > i {
                            assert(spec_str_less(old_e[i as int].0@, old_e[b - 1].0@));
                            lemma_str_less_transitive(kk, old_e[i as int].0@, old_e[b - 1].0@);
                        }
                    } else {
                        assert(spec_str_less(old_e[a - 1].0@, old_e[b - 1].0@));
                    }
                }
            }
            self.entries = entries;
            proof {
                lemma_lookup_at(ne, kk, i as int);
                assert forall|k2: Seq<char>| k2 != kk implies lookup(ne, k2) == lookup(
                    old_e,
                    k2,
                ) by {
                    if exists|j: int| key_at(old_e, k2, j) {
                        let j = choose|j: int| key_at(old_e, k2, j);
                        lemma_lookup_at(old_e, k2, j);
                        if j < i {
                            lemma_lookup_at(ne, k2, j);
                        } else {
                            lemma_lookup_at(ne, k2, j + 1);
                        }
                    } else {
                        assert forall|j: int| !key_at(ne, k2, j) by {
                            if key_at(ne, k2, j) {
                                if j < i {
                                    assert(key_at(old_e, k2, j));
                                } else if j > i {
                                    assert(key_at(old_e, k2, j - 1));
                                }
                            }
                        }
                    }
                }
            }
        }
    }

    /// Removes the entry named `k` and gives its value back.
    pub fn remove(&mut self, k: &[char]) -> (r: Option<Value>)
        ensures
            r == old(self).get_spec(k@),
            final(self).get_spec(k@) is None,
            forall|k2: Seq<char>| k2 != k@ ==> final(self).get_spec(k2) == old(self).get_spec(k2),
    {
        proof {
            use_type_invariant(&*self);
        }
        let ghost old_e = self.entries@;
        match self.find(k) {
            None => None,
            Some(i) => {
                proof {
                    lemma_lookup_at(old_e, k@, i as int);
                }
                let mut entries: Vec<(Vec<char>, Value)> = Vec::new();
            std::mem::swap(&mut entries, &mut self.entries);
                let (_, v) = entries.remove(i);
                let ghost ne = entries@;
                assert(keys_sorted(ne)) by {
                    assert forall|a: int, b: int| 0 <= a < b < ne.len() implies spec_str_less(
                        #[trigger] ne[a].0@,
                        #[trigger] ne[b].0@,
                    ) by {
                        if b < i {
                            assert(spec_str_less(old_e[a].0@, old_e[b].0@));
                        } else if a < i {
                            assert(spec_str_less(old_e[a].0@, old_e[b + 1].0@));
                        } else {
                            assert(spec_str_less(old_e[a + 1].0@, old_e[b + 1].0@));
                        }
                    }
                }
                self.entries = entries;
                proof {
                    assert forall|j: int| !key_at(ne, k@, j) by {
                        if key_at(ne, k@, j) {
                            if j < i {
                                assert(spec_str_less(old_e[j].0@, old_e[i as int].0@));
                            } else {
                                assert(spec_str_less(old_e[i as int].0@, old_e[j + 1].0@));
                            }
                            lemma_str_less_irreflexive(k@);
                        }
                    }
                    assert forall|k2: Seq<char>| k2 != k@ implies lookup(ne, k2) == lookup(
                        old_e,
                        k2,
                    ) by {
                        if exists|j: int| key_at(old_e, k2, j) {
                            let j = choose|j: int| key_at(old_e, k2, j);
                            lemma_lookup_at(old_e, k2, j);
                            if j < i {
                                lemma_lookup_at(ne, k2, j);
                            } else {
                                lemma_lookup_at(ne, k2, j - 1);
                            }
                        } else {
                            assert forall|j: int| !key_at(ne, k2, j) by {
                                if key_at(ne, k2, j) {
                                    if j < i {
                                        assert(key_at(old_e, k2, j));
                                    } else {
                                        assert(key_at(old_e, k2, j + 1));
                                    }
                                }
                            }
                        }
                    }
                }
                Some(v)
            },
        }
    }

    /// The names, in ascending order (so `Object.keys` and `for ... in` list them
    /// sorted, each once).
    pub fn keys(&self) -> (r: Vec<Vec<char>>)
        ensures
            r@.len() == self.seq().len(),
            forall|i: int| 0 <= i < r@.len() ==> #[trigger] r@[i]@ == self.seq()[i].0@,
            forall|i: int, j: int|
                0 <= i < j < r@.len() ==> spec_str_less(#[trigger] r@[i]@, #[trigger] r@[j]@),
    {
        proof {
            use_type_invariant(self);
        }
        let mut r: Vec<Vec<char>> = Vec::new();
        let mut i: usize = 0;
        while i < self.entries.len()
            invariant
                0 <= i <= self.entries@.len(),
                r@.len() == i,
                forall|j: int| 0 <= j < i ==> #[trigger] r@[j]@ == self.entries@[j].0@,
            decreases self.entries.len() - i,
        {
            r.push(clone_chars(&self.entries[i].0));
            i = i + 1;
        }
        r
    }
}

/// Law: `===` is symmetric.
pub proof fn law_strict_eq_symmetric(a: Value, b: Value)
    ensures
        spec_strict_eq(a, b) == spec_strict_eq(b, a),
{
}

/// Law: every value is `===` to itself except NaN and the reference values
/// (arrays, objects, functions, regexes), which are never `===` to anything.
pub proof fn law_strict_eq_reflexive(a: Value)
    ensures
        spec_strict_eq(a, a) <==> match a {
            Value::Number(n) => !n.is_nan_spec(),
            Value::Str(_) | Value::Bool(_) | Value::Null | Value::Undefined => true,
            _ => false,
        },
{
}

/// A value stored in a map is smaller than the map (for recursion over values).
pub proof fn lemma_map_value_smaller(m: PropMap, i: int)
    requires
        0 <= i < m.seq().len(),
    ensures
        decreases_to!(m => m.seq()[i].1),
{
    assert(decreases_to!(m => m.entries));
    assert(decreases_to!(m.entries => m.entries@));
    assert(decreases_to!(m.entries@ => m.entries@[i]));
    assert(decreases_to!(m.entries@[i] => m.entries@[i].1));
}

// ---------------------------------------------------------------------------
// Deep copies
// ---------------------------------------------------------------------------

/// `a` and `b` hold the same data: equal numbers and booleans, strings and regexes
/// with the same characters, arrays of pairwise equivalent elements, objects with the
/// same names in the same order and equivalent values, functions with the same name,
/// parameters and equivalent captured variables (their bodies are not compared).
pub open spec fn equiv(a: Value, b: Value) -> bool
    decreases a,
{
    match a {
        Value::Number(x) => b == Value::Number(x),
        Value::Str(x) => b matches Value::Str(y) && x@ == y@,
        Value::Bool(x) => b == Value::Bool(x),
        Value::Null => b is Null,
        Value::Undefined => b is Undefined,
        Value::Array(x) => b matches Value::Array(y) && x@.len() == y@.len() && forall|i: int|
            0 <= i < x@.len() ==> equiv(#[trigger] x@[i], y@[i]),
        Value::Object(x) => b matches Value::Object(y) && map_equiv(x, y),
        Value::Function(f) => b matches Value::Function(g) && same_names(f.name, g.name) && f.params@.len()
            == g.params@.len() && (forall|i: int|
            0 <= i < f.params@.len() ==> #[trigger] f.params@[i]@ == g.params@[i]@) && map_equiv(
            f.closure,
            g.closure,
        ),
        Value::Regex(p, fl) => b matches Value::Regex(q, gl) && p@ == q@ && fl@ == gl@,
    }
}

pub open spec fn same_names(a: Option<Vec<char>>, b: Option<Vec<char>>) -> bool {
    match a {
        Some(x) => b matches Some(y) && x@ == y@,
        None => b is None,
    }
}

/// Same names in the same order, with equivalent values.
pub open spec fn map_equiv(x: PropMap, y: PropMap) -> bool
    decreases x,
{
    x.seq().len() == y.seq().len() && forall|i: int|
        0 <= i < x.seq().len() ==> (#[trigger] x.seq()[i]).0@ == y.seq()[i].0@ && equiv(
            x.seq()[i].1,
            y.seq()[i].1,
        )
}

/// `equiv` is reflexive.
pub proof fn lemma_equiv_refl(v: Value)
    ensures
        equiv(v, v),
    decreases v,
{
    match v {
        Value::Array(x) => {
            assert forall|i: int| 0 <= i < x@.len() implies equiv(#[trigger] x@[i], x@[i]) by {
                assert(decreases_to!(x => x@));
                assert(decreases_to!(x@ => x@[i]));
                lemma_equiv_refl(x@[i]);
            }
        },
        Value::Object(m) => {
            lemma_map_equiv_refl(m);
        },
        Value::Function(f) => {
            lemma_map_equiv_refl(f.closure);
        },
        _ => {},
    }
}

pub proof fn lemma_map_equiv_refl(m: PropMap)
    ensures
        map_equiv(m, m),
    decreases m,
{
    assert forall|i: int| 0 <= i < m.seq().len() implies (#[trigger] m.seq()[i]).0@
        == m.seq()[i].0@ && equiv(m.seq()[i].1, m.seq()[i].1) by {
        lemma_map_value_smaller(m, i);
        lemma_equiv_refl(m.seq()[i].1);
    }
}

/// `equiv` is transitive.
pub proof fn lemma_equiv_trans(a: Value, b: Value, c: Value)
    requires
        equiv(a, b),
        equiv(b, c),
    ensures
        equiv(a, c),
    decreases a,
{
    match a {
        Value::Array(x) => {
            let y = b->Array_0;
            let z = c->Array_0;
            assert forall|i: int| 0 <= i < x@.len() implies equiv(#[trigger] x@[i], z@[i]) by {
                assert(decreases_to!(x => x@));
                assert(decreases_to!(x@ => x@[i]));
                assert(equiv(x@[i], y@[i]));
                assert(equiv(y@[i], z@[i]));
                lemma_equiv_trans(x@[i], y@[i], z@[i]);
            }
        },
        Value::Object(m) => {
            lemma_map_equiv_trans(m, b->Object_0, c->Object_0);
        },
        Value::Function(f) => {
            let g = b->Function_0;
            let h = c->Function_0;
            lemma_map_equiv_trans(f.closure, g.closure, h.closure);
            assert forall|i: int| 0 <= i < f.params@.len() implies #[trigger] f.params@[i]@
                == h.params@[i]@ by {
                assert(f.params@[i]@ == g.params@[i]@);
                assert(g.params@[i]@ == h.params@[i]@);
            }
        },
        _ => {},
    }
}

pub proof fn lemma_map_equiv_trans(x: PropMap, y: PropMap, z: PropMap)
    requires
        map_equiv(x, y),
        map_equiv(y, z),
    ensures
        map_equiv(x, z),
    decreases x,
{
    assert forall|i: int| 0 <= i < x.seq().len() implies (#[trigger] x.seq()[i]).0@
        == z.seq()[i].0@ && equiv(x.seq()[i].1, z.seq()[i].1) by {
        assert(x.seq()[i].0@ == y.seq()[i].0@ && equiv(x.seq()[i].1, y.seq()[i].1));
        assert(y.seq()[i].0@ == z.seq()[i].0@ && equiv(y.seq()[i].1, z.seq()[i].1));
        lemma_map_value_smaller(x, i);
        lemma_equiv_trans(x.seq()[i].1, y.seq()[i].1, z.seq()[i].1);
    }
}

pub fn clone_value(v: &Value) -> (r: Value)
    ensures
        equiv(*v, r),
    decreases v,
{
    match v {
        Value::Number(n) => Value::Number(*n),
        Value::Str(s) => Value::Str(clone_chars(s)),
        Value::Bool(b) => Value::Bool(*b),
        Value::Null => Value::Null,
        Value::Undefined => Value::Undefined,
        Value::Array(items) => Value::Array(clone_values(items)),
        Value::Object(m) => Value::Object(clone_map(m)),
        Value::Function(f) => Value::Function(clone_function(f)),
        Value::Regex(p, f) => Value::Regex(clone_chars(p), clone_chars(f)),
    }
}

pub fn clone_values(v: &Vec<Value>) -> (r: Vec<Value>)
    ensures
        r@.len() == v@.len(),
        forall|i: int| 0 <= i < v@.len() ==> equiv(#[trigger] v@[i], r@[i]),
    decreases v,
{
    let mut r: Vec<Value> = Vec::new();
    let mut i: usize = 0;
    while i < v.len()
        invariant
            0 <= i <= v@.len(),
            r@.len() == i,
            forall|j: int| 0 <= j < i ==> equiv(#[trigger] v@[j], r@[j]),
        decreases v.len() - i,
    {
        proof {
            assert(decreases_to!(v => v@));
            assert(decreases_to!(v@ => v@[i as int]));
        }
        r.push(clone_value(&v[i]));
        i = i + 1;
    }
    r
}

/// Both absent, or both present with equivalent values.
pub open spec fn opt_equiv(a: Option<Value>, b: Option<Value>) -> bool {
    match a {
        Some(x) => b matches Some(y) && equiv(x, y),
        None => b is None,
    }
}

/// Equivalent maps read equivalently under every name.
proof fn lemma_map_equiv_get(x: PropMap, y: PropMap, k: Seq<char>)
    requires
        map_equiv(x, y),
        keys_sorted(x.seq()),
        keys_sorted(y.seq()),
    ensures
        opt_equiv(x.get_spec(k), y.get_spec(k)),
{
    if exists|i: int| key_at(x.seq(), k, i) {
        let i = choose|i: int| key_at(x.seq(), k, i);
        lemma_lookup_at(x.seq(), k, i);
        assert(key_at(y.seq(), k, i));
        lemma_lookup_at(y.seq(), k, i);
    } else {
        assert forall|i: int| !key_at(y.seq(), k, i) by {
            if key_at(y.seq(), k, i) {
                assert(key_at(x.seq(), k, i));
            }
        }
    }
}

pub fn clone_map(m: &PropMap) -> (r: PropMap)
    ensures
        map_equiv(*m, r),
        forall|k: Seq<char>| opt_equiv(m.get_spec(k), #[trigger] r.get_spec(k)),
    decreases m,
{
    proof {
        use_type_invariant(m);
    }
    let mut out: Vec<(Vec<char>, Value)> = Vec::new();
    let mut i: usize = 0;
    while i < m.entries.len()
        invariant
            0 <= i <= m.entries@.len(),
            out@.len() == i,
            keys_sorted(m.entries@),
            forall|j: int| 0 <= j < i ==> (#[trigger] out@[j]).0@ == m.entries@[j].0@,
            forall|j: int| 0 <= j < i ==> equiv(m.entries@[j].1, (#[trigger] out@[j]).1),
        decreases m.entries.len() - i,
    {
        proof {
            assert(decreases_to!(m => m.entries));
            assert(decreases_to!(m.entries => m.entries@));
            assert(decreases_to!(m.entries@ => m.entries@[i as int]));
            assert(decreases_to!(m.entries@[i as int] => m.entries@[i as int].1));
        }
        let k = clone_chars(&m.entries[i].0);
        let v = clone_value(&m.entries[i].1);
        let ghost before = out@;
        out.push((k, v));
        assert(forall|j: int| 0 <= j < i ==> out@[j] == before[j]);
        i = i + 1;
    }
    let ghost o = out@;
    assert(keys_sorted(o)) by {
        assert forall|a: int, b: int| 0 <= a < b < o.len() implies spec_str_less(
            #[trigger] o[a].0@,
            #[trigger] o[b].0@,
        ) by {
            assert(o[a].0@ == m.entries@[a].0@);
            assert(o[b].0@ == m.entries@[b].0@);
            assert(spec_str_less(m.entries@[a].0@, m.entries@[b].0@));
        }
    }
    let r = PropMap { entries: out };
    assert forall|j: int| 0 <= j < m.entries@.len() implies (#[trigger] m.entries@[j]).0@
        == r.entries@[j].0@ && equiv(m.entries@[j].1, r.entries@[j].1) by {
        assert(out@[j].0@ == m.entries@[j].0@);
    }
    assert forall|k: Seq<char>| opt_equiv(m.get_spec(k), #[trigger] r.get_spec(k)) by {
        lemma_map_equiv_get(*m, r, k);
    }
    r
}

pub fn clone_function(f: &JsFunction) -> (r: JsFunction)
    ensures
        same_names(f.name, r.name),
        f.params@.len() == r.params@.len(),
        forall|i: int| 0 <= i < f.params@.len() ==> #[trigger] f.params@[i]@ == r.params@[i]@,
        map_equiv(f.closure, r.closure),
    decreases f,
{
    JsFunction {
        name: clone_opt_chars(&f.name),
        params: clone_names(&f.params),
        body: clone_stmts(&f.body),
        closure: clone_map(&f.closure),
    }
}

// ---------------------------------------------------------------------------
// Conversions
// ---------------------------------------------------------------------------

pub open spec fn spec_truthy(v: Value) -> bool {
    match v {
        Value::Number(n) => !n.is_zero_spec() && !n.is_nan_spec(),
        Value::Str(s) => s@.len() > 0,
        Value::Bool(b) => b,
        Value::Null | Value::Undefined => false,
        _ => true,
    }
}

/// `typeof` of a value.
pub open spec fn spec_type_of(v: Value) -> Seq<char> {
    match v {
        Value::Number(_) => "number"@,
        Value::Str(_) => "string"@,
        Value::Bool(_) => "boolean"@,
        Value::Undefined => "undefined"@,
        Value::Function(_) => "function"@,
        _ => "object"@,
    }
}

/// `===`: numbers by IEEE equality, strings and booleans by content, `null` and
/// `undefined` each equal to themselves; arrays, objects, functions and regexes
/// are never equal.
pub open spec fn spec_strict_eq(a: Value, b: Value) -> bool {
    match (a, b) {
        (Value::Number(x), Value::Number(y)) => !x.is_nan_spec() && !y.is_nan_spec() && (
        x.bits == y.bits || (x.is_zero_spec() && y.is_zero_spec())),
        (Value::Str(x), Value::Str(y)) => x@ == y@,
        (Value::Bool(x), Value::Bool(y)) => x == y,
        (Value::Null, Value::Null) => true,
        (Value::Undefined, Value::Undefined) => true,
        _ => false,
    }
}

/// Equivalent values read the same: truthiness, strict equality, nullishness and
/// numbers agree.
pub proof fn lemma_equiv_same_reading(a: Value, b: Value, c: Value, d: Value)
    requires
        equiv(a, b),
        equiv(c, d),
    ensures
        spec_truthy(a) == spec_truthy(b),
        spec_strict_eq(a, c) == spec_strict_eq(b, d),
        (a is Null) == (b is Null),
        (a is Undefined) == (b is Undefined),
        a is Number ==> b == a,
        c is Number ==> d == c,
{
}

/// Equivalent values have the same string form.
pub proof fn lemma_string_form_equiv(a: Value, b: Value)
    requires
        equiv(a, b),
    ensures
        scalar_form(a) == scalar_form(b),
        string_form(a) == string_form(b),
{
    if let Value::Array(x) = a {
        if let Value::Array(y) = b {
            assert forall|i: int| 0 <= i < x@.len() implies #[trigger] scalar_form(x@[i]) == scalar_form(
                y@[i],
            ) by {
                assert(equiv(x@[i], y@[i]));
            }
            assert(all_scalar(x@) == all_scalar(y@)) by {
                if all_scalar(x@) {
                    assert forall|i: int| 0 <= i < y@.len() implies #[trigger] scalar_form(y@[i]) is Some by {
                        assert(scalar_form(x@[i]) == scalar_form(y@[i]));
                    }
                }
                if all_scalar(y@) {
                    assert forall|i: int| 0 <= i < x@.len() implies #[trigger] scalar_form(x@[i]) is Some by {
                        assert(scalar_form(x@[i]) == scalar_form(y@[i]));
                    }
                }
            }
            assert(x@.map_values(|v: Value| scalar_form(v)->0) =~= y@.map_values(
                |v: Value| scalar_form(v)->0,
            ));
        }
    }
}

/// Items equivalent one for one have the same string forms.
pub proof fn lemma_string_forms_equiv(a: Seq<Value>, b: Seq<Value>)
    requires
        a.len() == b.len(),
        forall|i: int| 0 <= i < a.len() ==> equiv(#[trigger] a[i], b[i]),
    ensures
        all_formed(a) == all_formed(b),
        string_forms(a) == string_forms(b),
{
    assert forall|i: int| 0 <= i < a.len() implies #[trigger] string_form(a[i]) == string_form(b[i]) by {
        lemma_string_form_equiv(a[i], b[i]);
    }
    if all_formed(a) {
        assert forall|i: int| 0 <= i < b.len() implies #[trigger] string_form(b[i]) is Some by {
            assert(string_form(a[i]) == string_form(b[i]));
        }
    }
    if all_formed(b) {
        assert forall|i: int| 0 <= i < a.len() implies #[trigger] string_form(a[i]) is Some by {
            assert(string_form(a[i]) == string_form(b[i]));
        }
    }
    assert(string_forms(a) =~= string_forms(b));
}

/// Exact IEEE equality of two binary64 values.
pub fn double_eq(x: &Double, y: &Double) -> (r: bool)
    ensures
        r == (!x.is_nan_spec() && !y.is_nan_spec() && (x.bits == y.bits || (x.is_zero_spec()
            && y.is_zero_spec()))),
{
    if x.is_nan() || y.is_nan() {
        false
    } else if x.bits == y.bits {
        true
    } else {
        x.is_zero() && y.is_zero()
    }
}

/// A number as the interpreter's 32-bit conversion takes it: NaN and infinities give 0,
/// else the value truncated toward zero (saturating at the `i64` range), wrapped to 32 bits.
pub open spec fn spec_number_to_i32(n: Double) -> i32 {
    if n.is_nan_spec() || n.is_inf_spec() {
        0
    } else {
        spec_clamp(spec_trunc(n), i64::MIN as int, i64::MAX as int) as i32
    }
}

/// As `spec_number_to_i32`, wrapped to an unsigned 32-bit value.
pub open spec fn spec_number_to_u32(n: Double) -> u32 {
    if n.is_nan_spec() || n.is_inf_spec() {
        0
    } else {
        spec_clamp(spec_trunc(n), i64::MIN as int, i64::MAX as int) as u32
    }
}

/// `0.0` and `1.0` truncate to 0 and 1.
proof fn lemma_small_truncs()
    ensures
        spec_trunc(Double { bits: 0 }) == 0,
        spec_trunc(Double { bits: 0x3FF0_0000_0000_0000 }) == 1,
{
    let one = Double { bits: 0x3FF0_0000_0000_0000 };
    assert(spec_exp_field(one.bits) == 1023);
    assert(spec_frac_field(one.bits) == 0);
    assert(spec_pow2(52) == 0x10_0000_0000_0000) by {
        reveal_with_fuel(spec_pow2, 53);
    }
    assert(one.sig_spec() == 0x10_0000_0000_0000);
    assert(one.exp_spec() == -52);
    assert(spec_pow2((-one.exp_spec()) as nat) == 0x10_0000_0000_0000);
    assert(spec_trunc_mag(one) == 1);
}

impl Value {
    pub fn is_truthy(&self) -> (r: bool)
        ensures
            r == spec_truthy(*self),
    {
        match self {
            Value::Number(n) => !n.is_zero() && !n.is_nan(),
            Value::Str(s) => s.len() > 0,
            Value::Bool(b) => *b,
            Value::Null | Value::Undefined => false,
            _ => true,
        }
    }

    /// Numeric conversion: strings are trimmed; empty is 0, `0x` prefixes read hex,
    /// anything else goes through the decimal reader.
    pub fn to_number(&self) -> (r: Double)
        ensures
            *self matches Value::Number(n) ==> r == n,
            *self matches Value::Bool(b) ==> r == (if b {
                Double { bits: 0x3FF0_0000_0000_0000 }
            } else {
                Double { bits: 0 }
            }),
            *self is Null ==> r.bits == 0,
            *self matches Value::Str(s) && crate::text::spec_trim(s@).len() == 0 ==> r.bits == 0,
            *self matches Value::Str(s) ==> (plain_digits(s@) && digits_value(crate::text::spec_trim(s@), 10)
                < safe_limit() ==> spec_is_int_value(r, digits_value(crate::text::spec_trim(s@), 10))),
            !(*self is Number || *self is Bool || *self is Null || *self is Str) ==> r.is_nan_spec(),
    {
        match self {
            Value::Number(n) => *n,
            Value::Str(s) => {
                let t = crate::text::trim(s.as_slice());
                if t.len() == 0 {
                    return Double::zero(false);
                }
                proof {
                    reveal_strlit("0x");
                    reveal_strlit("0X");
                    if plain_digits(s@) {
                        let t2 = t@;
                        assert(spec_digit_of(t2[0]) matches Some(v) && v < 10);
                        assert(spec_digit_of(t2[t2.len() - 1]) matches Some(v) && v < 10);
                        assert(t2.subrange(0, t2.len() as int) =~= t2);
                        assert(crate::text::spec_trim_start(t2) =~= t2);
                        assert(crate::text::spec_trim(t2) =~= t2);
                        assert("0x"@[1] == 'x' && "0X"@[1] == 'X' && "0x"@.len() == 2 && "0X"@.len() == 2);
                        if t2.len() >= 2 {
                            assert(spec_digit_of(t2[1]) matches Some(v) && v < 10);
                            assert(t2.subrange(0, 2)[1] == t2[1]);
                        }
                    }
                }
                if starts_with_str(t.as_slice(), "0x") || starts_with_str(t.as_slice(), "0X") {
                    let rest = slice_range(t.as_slice(), 2, t.len());
                    match u64_from_radix(rest.as_slice(), 16) {
                        Some(v) => Double::from_u64(v),
                        None => Double::nan(),
                    }
                } else {
                    parse_float_simple(t.as_slice())
                }
            },
            Value::Bool(b) => if *b {
                Double::one()
            } else {
                Double::zero(false)
            },
            Value::Null => Double::zero(false),
            _ => Double::nan(),
        }
    }

    /// String conversion.
    pub fn to_string_val(&self) -> (r: Vec<char>)
        ensures
            *self matches Value::Str(s) ==> r@ == s@,
            *self matches Value::Bool(b) ==> r@ == (if b {
                "true"@
            } else {
                "false"@
            }),
            *self is Null ==> r@ == "null"@,
            *self is Undefined ==> r@ == "undefined"@,
            *self is Object ==> r@ == "[object Object]"@,
            scalar_form(*self) matches Some(t) ==> r@ == t,
            string_form(*self) matches Some(t) ==> r@ == t,
        decreases self,
    {
        match self {
            Value::Number(n) => format_number(n),
            Value::Str(s) => clone_chars(s),
            Value::Bool(b) => if *b {
                str_to_chars("true")
            } else {
                str_to_chars("false")
            },
            Value::Null => str_to_chars("null"),
            Value::Undefined => str_to_chars("undefined"),
            Value::Array(arr) => {
                let sep = vec![','];
                proof {
                    reveal_strlit(",");
                    assert(sep@ =~= ","@);
                }
                join_values(arr, &sep)
            },
            Value::Object(_) => str_to_chars("[object Object]"),
            Value::Function(f) => {
                let mut out = str_to_chars("function ");
                match &f.name {
                    Some(n) => push_all(&mut out, n.as_slice()),
                    None => push_str(&mut out, "anonymous"),
                }
                push_str(&mut out, "() { [native code] }");
                out
            },
            Value::Regex(p, f) => {
                let mut out = vec!['/'];
                push_all(&mut out, p.as_slice());
                out.push('/');
                push_all(&mut out, f.as_slice());
                out
            },
        }
    }

    /// `ToInt32`-like conversion: truncation to `i64`, then wrapping to 32 bits.
    pub fn to_i32(&self) -> (r: i32)
        ensures
            *self matches Value::Number(n) ==> r == spec_number_to_i32(n),
            *self matches Value::Bool(b) ==> r == (if b {
                1i32
            } else {
                0i32
            }),
            *self is Null ==> r == 0,
            !(*self is Number || *self is Bool || *self is Null || *self is Str) ==> r == 0,
    {
        let n = self.to_number();
        proof {
            lemma_small_truncs();
        }
        if n.is_nan() || n.is_infinite() {
            return 0;
        }
        let v = n.to_i64();
        v as i32
    }

    /// As `to_i32`, wrapping to an unsigned 32-bit value.
    pub fn to_u32(&self) -> (r: u32)
        ensures
            *self matches Value::Number(n) ==> r == spec_number_to_u32(n),
            *self matches Value::Bool(b) ==> r == (if b {
                1u32
            } else {
                0u32
            }),
            *self is Null ==> r == 0,
            !(*self is Number || *self is Bool || *self is Null || *self is Str) ==> r == 0,
    {
        let n = self.to_number();
        proof {
            lemma_small_truncs();
        }
        if n.is_nan() || n.is_infinite() {
            return 0;
        }
        let v = n.to_i64();
        v as u32
    }

    pub fn type_of(&self) -> (r: &'static str)
        ensures
            r@ == spec_type_of(*self),
    {
        match self {
            Value::Number(_) => "number",
            Value::Str(_) => "string",
            Value::Bool(_) => "boolean",
            Value::Null => "object",
            Value::Undefined => "undefined",
            Value::Array(_) => "object",
            Value::Object(_) => "object",
            Value::Function(_) => "function",
            Value::Regex(..) => "object",
        }
    }

    pub fn strict_eq(&self, other: &Value) -> (r: bool)
        ensures
            r == spec_strict_eq(*self, *other),
    {
        match (self, other) {
            (Value::Number(a), Value::Number(b)) => double_eq(a, b),
            (Value::Str(a), Value::Str(b)) => slices_eq(a.as_slice(), b.as_slice()),
            (Value::Bool(a), Value::Bool(b)) => *a == *b,
            (Value::Null, Value::Null) => true,
            (Value::Undefined, Value::Undefined) => true,
            _ => false,
        }
    }

    /// `==`: strict equality, `null == undefined`, numbers against strings through
    /// the decimal reader, booleans compared as numbers.
    pub fn loose_eq(&self, other: &Value) -> (r: bool)
        ensures
            spec_strict_eq(*self, *other) ==> r,
            (*self is Null && *other is Undefined) || (*self is Undefined && *other is Null) ==> r,
            (*self is Array || *self is Object || *self is Function || *self is Regex) && !(
            *other is Bool) ==> !r,
        decreases (if *self is Bool {
            1int
        } else {
            0
        }) + (if *other is Bool {
            1int
        } else {
            0
        }),
    {
        if self.strict_eq(other) {
            return true;
        }
        match (self, other) {
            (Value::Null, Value::Undefined) | (Value::Undefined, Value::Null) => true,
            (Value::Number(a), Value::Str(b)) => double_eq(a, &parse_float_simple(b.as_slice())),
            (Value::Str(a), Value::Number(b)) => double_eq(&parse_float_simple(a.as_slice()), b),
            (Value::Bool(_), _) => Value::Number(self.to_number()).loose_eq(other),
            (_, Value::Bool(_)) => self.loose_eq(&Value::Number(other.to_number())),
            _ => false,
        }
    }
}

/// `parts` joined with `sep` between consecutive parts.
pub open spec fn spec_join(parts: Seq<Seq<char>>, sep: Seq<char>) -> Seq<char>
    decreases parts.len(),
{
    if parts.len() == 0 {
        seq![]
    } else if parts.len() == 1 {
        parts[0]
    } else {
        spec_join(parts.drop_last(), sep) + sep + parts.last()
    }
}

/// Every item is a string.
pub open spec fn all_strings(items: Seq<Value>) -> bool {
    forall|i: int| 0 <= i < items.len() ==> #[trigger] items[i] is Str
}

/// The characters of each (string) item.
pub open spec fn string_views(items: Seq<Value>) -> Seq<Seq<char>> {
    items.map_values(|v: Value| v->Str_0@)
}

/// The text of a number where it is fixed exactly: NaN, the infinities, zero, and
/// integers below 10^18 (other numbers have no stated text).
pub open spec fn number_form(n: Double) -> Option<Seq<char>> {
    if n.is_nan_spec() {
        Some("NaN"@)
    } else if n.is_inf_spec() {
        Some(if n.is_neg_spec() { "-Infinity"@ } else { "Infinity"@ })
    } else if n.is_zero_spec() {
        Some("0"@)
    } else if is_finite_nonzero(n) && spec_is_integral(n) && spec_trunc_mag(n) < 1_000_000_000_000_000 {
        Some(spec_int_dec(spec_int_part(n)))
    } else {
        None
    }
}

/// The string form of a value that is not an array or a function.
pub open spec fn scalar_form(v: Value) -> Option<Seq<char>> {
    match v {
        Value::Number(n) => number_form(n),
        Value::Str(s) => Some(s@),
        Value::Bool(b) => Some(if b { "true"@ } else { "false"@ }),
        Value::Null => Some("null"@),
        Value::Undefined => Some("undefined"@),
        Value::Object(_) => Some("[object Object]"@),
        _ => None,
    }
}

/// Equivalent values have the same scalar string form.
pub proof fn lemma_equiv_scalar_form(v: Value, w: Value)
    requires
        equiv(v, w),
    ensures
        scalar_form(w) == scalar_form(v),
{
}

/// Equivalent values are alike truthy.
pub proof fn lemma_equiv_truthy(v: Value, w: Value)
    requires
        equiv(v, w),
    ensures
        spec_truthy(w) == spec_truthy(v),
{
}

/// Every item has a scalar string form.
pub open spec fn all_scalar(items: Seq<Value>) -> bool {
    forall|i: int| 0 <= i < items.len() ==> #[trigger] scalar_form(items[i]) is Some
}

/// The string form of a value (`String(v)`), where it is fixed: scalars as above, and
/// an array of scalars as their forms joined by commas.
pub open spec fn string_form(v: Value) -> Option<Seq<char>> {
    match v {
        Value::Array(a) => if all_scalar(a@) {
            Some(spec_join(a@.map_values(|x: Value| scalar_form(x)->0), ","@))
        } else {
            None
        },
        _ => scalar_form(v),
    }
}

/// Every item has a string form.
pub open spec fn all_formed(items: Seq<Value>) -> bool {
    forall|i: int| 0 <= i < items.len() ==> #[trigger] string_form(items[i]) is Some
}

/// The string forms of the items.
pub open spec fn string_forms(items: Seq<Value>) -> Seq<Seq<char>> {
    items.map_values(|v: Value| string_form(v)->0)
}

/// The string forms of `items`, joined by `sep` (`Array.prototype.join`).
pub fn join_values(items: &Vec<Value>, sep: &Vec<char>) -> (r: Vec<char>)
    ensures
        all_strings(items@) ==> r@ == spec_join(string_views(items@), sep@),
        all_formed(items@) ==> r@ == spec_join(string_forms(items@), sep@),
        all_scalar(items@) ==> r@ == spec_join(
            items@.map_values(|x: Value| scalar_form(x)->0),
            sep@,
        ),
    decreases items,
{
    let mut out: Vec<char> = Vec::new();
    let mut i: usize = 0;
    assert(string_views(items@.take(0)) =~= Seq::<Seq<char>>::empty());
    while i < items.len()
        invariant
            0 <= i <= items@.len(),
            all_strings(items@) ==> out@ == spec_join(string_views(items@.take(i as int)), sep@),
            all_formed(items@) ==> out@ == spec_join(string_forms(items@.take(i as int)), sep@),
            all_scalar(items@) ==> out@ == spec_join(
                items@.take(i as int).map_values(|x: Value| scalar_form(x)->0),
                sep@,
            ),
        decreases items.len() - i,
    {
        proof {
            assert(decreases_to!(items => items@));
            assert(decreases_to!(items@ => items@[i as int]));
        }
        let ghost before = out@;
        if i > 0 {
            push_all(&mut out, sep.as_slice());
        }
        let s = items[i].to_string_val();
        push_all(&mut out, s.as_slice());
        proof {
            let p = string_views(items@.take(i + 1));
            assert(p.drop_last() =~= string_views(items@.take(i as int)));
            if all_strings(items@) {
                assert(items@[i as int] is Str);
                assert(p.last() == items@[i as int]->Str_0@);
            }
            let q = string_forms(items@.take(i + 1));
            assert(q.drop_last() =~= string_forms(items@.take(i as int)));
            if all_formed(items@) {
                assert(string_form(items@[i as int]) is Some);
                assert(q.last() == string_form(items@[i as int])->0);
            }
            let w = items@.take(i + 1).map_values(|x: Value| scalar_form(x)->0);
            assert(w.drop_last() =~= items@.take(i as int).map_values(|x: Value| scalar_form(x)->0));
            if all_scalar(items@) {
                assert(scalar_form(items@[i as int]) is Some);
                assert(w.last() == scalar_form(items@[i as int])->0);
            }
        }
        i = i + 1;
    }
    assert(items@.take(items@.len() as int) =~= items@);
    out
}

} // verus!

use vstd::prelude::*;
use crate::record::Record;

verus! {

broadcast use vstd::std_specs::vec::axiom_vec_index_decreases;

#[verifier::external_type_specification]
#[verifier::external_body]
pub struct ExRegex(regex::Regex);

/// Whether `regex::Regex::new` accepts `pattern`.
pub uninterp spec fn pattern_compiles(pattern: Seq<char>) -> bool;

/// Whether the regex of `pattern` matches somewhere in `text`.
pub uninterp spec fn regex_finds(pattern: Seq<char>, text: Seq<char>) -> bool;

/// A regex together with the pattern it was compiled from. Values are only
/// made by `compile`, so the two always agree.
pub struct CompiledPattern {
    pattern: String,
    regex: regex::Regex,
}

impl CompiledPattern {
    pub closed spec fn pattern(&self) -> Seq<char> {
        self.pattern@
    }
}

/// Relies on `regex::Regex::new`: it succeeds or fails depending on the
/// pattern alone.
#[verifier::external_body]
fn compile(pattern: &String) -> (r: Option<CompiledPattern>)
    ensures
        r.is_some() == pattern_compiles(pattern@),
        r matches Some(c) ==> c.pattern() == pattern@,
{
    match regex::Regex::new(pattern) {
        Ok(regex) => Some(CompiledPattern { pattern: pattern.clone(), regex }),
        Err(_) => None,
    }
}

/// Relies on `regex::Regex::is_match`: true iff the regex matches anywhere
/// in the text (not anchored).
#[verifier::external_body]
fn find_in(c: &CompiledPattern, text: &String) -> (r: bool)
    ensures
        r == regex_finds(c.pattern(), text@),
{
    c.regex.is_match(text)
}

/// A boolean predicate over records.
pub enum Condition {
    RecordType(String),
    MetadataMatch { key: String, pattern: String },
    MetadataExists(String),
    MetadataEquals { key: String, value: String },
    And(Vec<Condition>),
    Or(Vec<Condition>),
    Not(Box<Condition>),
    Always,
    Never,
}

/// Whether pattern `pattern` matches the value stored under `key`; a
/// pattern that does not compile matches nothing.
pub open spec fn meta_matches(r: Record, key: Seq<char>, pattern: Seq<char>) -> bool {
    match r.meta(key) {
        Some(v) => pattern_compiles(pattern) && regex_finds(pattern, v),
        None => false,
    }
}

/// What it means for record `r` to satisfy condition `c`.
pub open spec fn holds(c: Condition, r: Record) -> bool
    decreases c,
{
    match c {
        Condition::RecordType(t) => r.record_type@ == t@,
        Condition::MetadataMatch { key, pattern } => meta_matches(r, key@, pattern@),
        Condition::MetadataExists(k) => r.meta(k@).is_some(),
        Condition::MetadataEquals { key, value } => r.meta(key@) == Some(value@),
        Condition::And(cs) => forall|i: int| 0 <= i < cs.len() ==> holds(#[trigger] cs[i], r),
        Condition::Or(cs) => exists|i: int| 0 <= i < cs.len() && holds(#[trigger] cs[i], r),
        Condition::Not(b) => !holds(*b, r),
        Condition::Always => true,
        Condition::Never => false,
    }
}

/// Whether `p` is the pattern of some `MetadataMatch` within `c`.
pub open spec fn mentions(c: Condition, p: Seq<char>) -> bool
    decreases c,
{
    match c {
        Condition::MetadataMatch { key, pattern } => pattern@ == p,
        Condition::And(cs) => exists|i: int| 0 <= i < cs.len() && mentions(#[trigger] cs[i], p),
        Condition::Or(cs) => exists|i: int| 0 <= i < cs.len() && mentions(#[trigger] cs[i], p),
        Condition::Not(b) => mentions(*b, p),
        _ => false,
    }
}

impl Condition {
    /// Evaluates the condition; children are visited in order with
    /// short-circuiting.
    pub fn evaluate(&self, record: &Record) -> (r: bool)
        ensures
            r == holds(*self, *record),
        decreases self,
    {
        match self {
            Condition::RecordType(expected) => record.record_type == *expected,
            Condition::MetadataMatch { key, pattern } => {
                match record.get_metadata(key) {
                    Some(value) => {
                        match compile(pattern) {
                            Some(c) => find_in(&c, value),
                            None => false,
                        }
                    },
                    None => false,
                }
            },
            Condition::MetadataExists(key) => record.get_metadata(key).is_some(),
            Condition::MetadataEquals { key, value } => {
                match record.get_metadata(key) {
                    Some(v) => *v == *value,
                    None => false,
                }
            },
            Condition::And(conditions) => {
                let mut i: usize = 0;
                while i < conditions.len()
                    invariant
                        0 <= i <= conditions@.len(),
                        *self == Condition::And(*conditions),
                        forall|j: int| 0 <= j < i ==> holds(#[trigger] conditions@[j], *record),
                    decreases conditions@.len() - i,
                {
                    proof {
                        assert(decreases_to!(*self => self->And_0));
                        assert(decreases_to!(*conditions => conditions[i as int]));
                    }
                    if !conditions[i].evaluate(record) {
                        assert(!holds(conditions@[i as int], *record));
                        assert(!holds(Condition::And(*conditions), *record));
                        return false;
                    }
                    i = i + 1;
                }
                true
            },
            Condition::Or(conditions) => {
                let mut i: usize = 0;
                while i < conditions.len()
                    invariant
                        0 <= i <= conditions@.len(),
                        *self == Condition::Or(*conditions),
                        forall|j: int| 0 <= j < i ==> !holds(#[trigger] conditions@[j], *record),
                    decreases conditions@.len() - i,
                {
                    proof {
                        assert(decreases_to!(*self => self->Or_0));
                        assert(decreases_to!(*conditions => conditions[i as int]));
                    }
                    if conditions[i].evaluate(record) {
                        assert(holds(conditions[i as int], *record));
                        assert(holds(Condition::Or(*conditions), *record));
                        return true;
                    }
                    i = i + 1;
                }
                false
            },
            Condition::Not(inner) => !inner.evaluate(record),
            Condition::Always => true,
            Condition::Never => false,
        }
    }
}

impl Default for Condition {
    fn default() -> (c: Condition)
        ensures
            c == Condition::Always,
    {
        Condition::Always
    }
}

/// A cache of compiled patterns, keyed by pattern text.
pub struct ConditionMatcher {
    compiled_patterns: Vec<CompiledPattern>,
}

impl ConditionMatcher {
    /// Whether a compiled regex for `p` is in the cache.
    pub closed spec fn cached(&self, p: Seq<char>) -> bool {
        exists|i: int| 0 <= i < self.compiled_patterns@.len() && (#[trigger] self.compiled_patterns@[i]).pattern() == p
    }

    /// Only patterns that compile are ever cached.
    pub closed spec fn wf(&self) -> bool {
        forall|i: int| 0 <= i < self.compiled_patterns@.len() ==> pattern_compiles((#[trigger] self.compiled_patterns@[i]).pattern())
    }

    pub fn new() -> (m: ConditionMatcher)
        ensures
            m.wf(),
            forall|p: Seq<char>| !(#[trigger] m.cached(p)),
    {
        ConditionMatcher { compiled_patterns: Vec::new() }
    }

    fn lookup(&self, pattern: &String) -> (r: Option<&CompiledPattern>)
        ensures
            r matches Some(c) ==> c.pattern() == pattern@,
            r is None ==> !self.cached(pattern@),
            r is Some ==> self.cached(pattern@),
    {
        let mut i: usize = 0;
        while i < self.compiled_patterns.len()
            invariant
                0 <= i <= self.compiled_patterns@.len(),
                forall|j: int| 0 <= j < i ==> (#[trigger] self.compiled_patterns@[j]).pattern() != pattern@,
            decreases self.compiled_patterns@.len() - i,
        {
            if self.compiled_patterns[i].pattern == *pattern {
                return Some(&self.compiled_patterns[i]);
            }
            i = i + 1;
        }
        None
    }

    /// Compiles and caches every pattern of `condition` that is not cached
    /// yet; patterns that do not compile are skipped.
    pub fn precompile(&mut self, condition: &Condition)
        requires
            old(self).wf(),
        ensures
            final(self).wf(),
            forall|p: Seq<char>| #[trigger] old(self).cached(p) ==> final(self).cached(p),
            forall|p: Seq<char>| mentions(*condition, p) && pattern_compiles(p) ==> #[trigger] final(self).cached(p),
            forall|p: Seq<char>| #[trigger] final(self).cached(p) ==> old(self).cached(p) || (mentions(*condition, p) && pattern_compiles(p)),
        decreases condition,
    {
        match condition {
            Condition::MetadataMatch { pattern, .. } => {
                if self.lookup(pattern).is_none() {
                    match compile(pattern) {
                        Some(c) => {
                            let ghost before = self.compiled_patterns@;
                            self.compiled_patterns.push(c);
                            proof {
                                assert(self.compiled_patterns@[before.len() as int].pattern() == pattern@);
                                assert forall|p: Seq<char>| #[trigger] old(self).cached(p) implies self.cached(p) by {
                                    let i = choose|i: int| 0 <= i < before.len() && (#[trigger] before[i]).pattern() == p;
                                    assert(self.compiled_patterns@[i] == before[i]);
                                }
                                assert forall|p: Seq<char>| #[trigger] self.cached(p) implies old(self).cached(p) || mentions(*condition, p) by {
                                    let i = choose|i: int| 0 <= i < self.compiled_patterns@.len() && (#[trigger] self.compiled_patterns@[i]).pattern() == p;
                                    if i < before.len() {
                                        assert(before[i] == self.compiled_patterns@[i]);
                                    }
                                }
                            }
                        },
                        None => {},
                    }
                }
            },
            Condition::And(conditions) | Condition::Or(conditions) => {
                let mut i: usize = 0;
                while i < conditions.len()
                    invariant
                        0 <= i <= conditions@.len(),
                        *condition == Condition::And(*conditions) || *condition == Condition::Or(*conditions),
                        self.wf(),
                        forall|p: Seq<char>| #[trigger] old(self).cached(p) ==> self.cached(p),
                        forall|p: Seq<char>| #[trigger] self.cached(p) ==> old(self).cached(p) || mentions(*condition, p),
                        forall|j: int, p: Seq<char>| 0 <= j < i && mentions(#[trigger] conditions[j], p) && pattern_compiles(p)
                            ==> #[trigger] self.cached(p),
                    decreases conditions@.len() - i,
                {
                    proof {
                        if *condition == Condition::And(*conditions) {
                            assert(decreases_to!(*condition => condition->And_0));
                        } else {
                            assert(decreases_to!(*condition => condition->Or_0));
                        }
                        assert(decreases_to!(*conditions => conditions[i as int]));
                    }
                    let ghost mid = *self;
                    self.precompile(&conditions[i]);
                    proof {
                        assert forall|p: Seq<char>| #[trigger] self.cached(p) implies old(self).cached(p) || mentions(*condition, p) by {
                            if !mid.cached(p) {
                                assert(mentions(conditions[i as int], p));
                            }
                        }
                        assert forall|j: int, p: Seq<char>| 0 <= j < i + 1 && mentions(#[trigger] conditions[j], p) && pattern_compiles(p)
                            implies #[trigger] self.cached(p) by {
                            if j < i {
                                assert(mid.cached(p));
                            }
                        }
                    }
                    i = i + 1;
                }
            },
            Condition::Not(inner) => {
                self.precompile(inner);
            },
            _ => {},
        }
    }

    /// Evaluates `condition` using cached regexes where available; the
    /// result is the same as `Condition::evaluate`.
    pub fn evaluate_with_cache(&self, condition: &Condition, record: &Record) -> (r: bool)
        requires
            self.wf(),
        ensures
            r == holds(*condition, *record),
        decreases condition,
    {
        match condition {
            Condition::MetadataMatch { key, pattern } => {
                match record.get_metadata(key) {
                    Some(value) => {
                        match self.lookup(pattern) {
                            Some(c) => {
                                proof {
                                    let i = choose|i: int| 0 <= i < self.compiled_patterns@.len() && (#[trigger] self.compiled_patterns@[i]).pattern() == pattern@;
                                }
                                find_in(c, value)
                            },
                            None => {
                                match compile(pattern) {
                                    Some(c) => find_in(&c, value),
                                    None => false,
                                }
                            },
                        }
                    },
                    None => false,
                }
            },
            Condition::And(conditions) => {
                let mut i: usize = 0;
                while i < conditions.len()
                    invariant
                        0 <= i <= conditions@.len(),
                        self.wf(),
                        *condition == Condition::And(*conditions),
                        forall|j: int| 0 <= j < i ==> holds(#[trigger] conditions[j], *record),
                    decreases conditions@.len() - i,
                {
                    proof {
                        assert(decreases_to!(*condition => condition->And_0));
                        assert(decreases_to!(*conditions => conditions[i as int]));
                    }
                    if !self.evaluate_with_cache(&conditions[i], record) {
                        assert(!holds(Condition::And(*conditions), *record));
                        return false;
                    }
                    i = i + 1;
                }
                true
            },
            Condition::Or(conditions) => {
                let mut i: usize = 0;
                while i < conditions.len()
                    invariant
                        0 <= i <= conditions@.len(),
                        self.wf(),
                        *condition == Condition::Or(*conditions),
                        forall|j: int| 0 <= j < i ==> !holds(#[trigger] conditions[j], *record),
                    decreases conditions@.len() - i,
                {
                    proof {
                        assert(decreases_to!(*condition => condition->Or_0));
                        assert(decreases_to!(*conditions => conditions[i as int]));
                    }
                    if self.evaluate_with_cache(&conditions[i], record) {
                        assert(holds(conditions[i as int], *record));
                        assert(holds(Condition::Or(*conditions), *record));
                        return true;
                    }
                    i = i + 1;
                }
                false
            },
            Condition::Not(inner) => !self.evaluate_with_cache(inner, record),
            _ => condition.evaluate(record),
        }
    }
}

impl Default for ConditionMatcher {
    fn default() -> (m: ConditionMatcher)
        ensures
            m.wf(),
            forall|p: Seq<char>| !(#[trigger] m.cached(p)),
    {
        ConditionMatcher::new()
    }
}

} // verus!

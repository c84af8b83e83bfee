//! Topic-level access rules for produce, fetch and admin operations.
//!
//! A rule allows a principal (or `*`, anyone) an operation on a topic (or on
//! topic 0, every topic). Checks pass when no rule is configured and deny is not
//! the default; otherwise an operation passes when a rule allows it, and is
//! refused only when deny is the default.

use crate::error::DmqError;
use crate::text::{
    ascii_lower, bytes_eq, bytes_eq_ignore_case, eq_ignore_case, parse_unsigned, spec_parse_unsigned,
};
use crate::wire::copy_range;
use vstd::prelude::*;

verus! {

#[derive(Debug, Clone, Copy, PartialEq, Eq, Structural, Hash)]
pub enum Operation {
    Produce,
    Fetch,
    Admin,
}

/// One allowed (principal, operation, topic) triple; the principal is held as the
/// bytes of its name.
#[derive(Debug, Clone)]
pub struct AclRule {
    pub principal: Vec<u8>,
    pub op: Operation,
    pub topic_id: u16,
}

pub struct AclRuleView {
    pub principal: Seq<u8>,
    pub op: Operation,
    pub topic_id: u16,
}

impl View for AclRule {
    type V = AclRuleView;

    open spec fn view(&self) -> AclRuleView {
        AclRuleView { principal: self.principal@, op: self.op, topic_id: self.topic_id }
    }
}

#[derive(Debug, Clone)]
pub struct Acl {
    allowed: Vec<AclRule>,
    deny_by_default: bool,
}

pub struct AclView {
    pub allowed: Seq<AclRuleView>,
    pub deny_by_default: bool,
}

impl View for Acl {
    type V = AclView;

    closed spec fn view(&self) -> AclView {
        AclView { allowed: self.allowed@.map_values(|r: AclRule| r@), deny_by_default: self.deny_by_default }
    }
}

/// The principal that stands for anyone.
pub open spec fn wildcard() -> Seq<u8> {
    seq![42u8]
}

impl AclView {
    pub open spec fn allows_exactly(self, principal: Seq<u8>, op: Operation, topic_id: u16) -> bool {
        exists|i: int|
            0 <= i < self.allowed.len() && #[trigger] self.allowed[i] == (AclRuleView { principal, op, topic_id })
    }

    /// Some rule allows `principal` (or anyone) `op` on `topic_id` (or on every topic).
    pub open spec fn allows(self, principal: Seq<u8>, op: Operation, topic_id: u16) -> bool {
        ||| self.allows_exactly(principal, op, topic_id)
        ||| self.allows_exactly(principal, op, 0)
        ||| self.allows_exactly(wildcard(), op, topic_id)
        ||| self.allows_exactly(wildcard(), op, 0)
    }

    pub open spec fn is_configured(self) -> bool {
        self.deny_by_default || self.allowed.len() > 0
    }

    /// The rules form a set: none is listed twice.
    pub open spec fn wf(self) -> bool {
        self.allowed.no_duplicates()
    }

    /// The outcome of a check.
    pub open spec fn check(self, principal: Seq<u8>, op: Operation, topic_id: u16) -> Result<(), DmqError> {
        if !self.is_configured() || self.allows(principal, op, topic_id) || !self.deny_by_default {
            Ok(())
        } else {
            Err(DmqError::AclDenied)
        }
    }
}

/// The operation a rule names, in any case.
pub open spec fn spec_parse_op(name: Seq<u8>) -> Option<Operation> {
    if eq_ignore_case(name, seq![112u8, 114u8, 111u8, 100u8, 117u8, 99u8, 101u8]) {
        Some(Operation::Produce)
    } else if eq_ignore_case(name, seq![102u8, 101u8, 116u8, 99u8, 104u8]) {
        Some(Operation::Fetch)
    } else if eq_ignore_case(name, seq![97u8, 100u8, 109u8, 105u8, 110u8]) {
        Some(Operation::Admin)
    } else {
        None
    }
}

fn parse_op(name: &[u8]) -> (r: Option<Operation>)
    ensures
        r == spec_parse_op(name@),
{
    let produce: [u8; 7] = [112u8, 114u8, 111u8, 100u8, 117u8, 99u8, 101u8];
    let fetch: [u8; 5] = [102u8, 101u8, 116u8, 99u8, 104u8];
    let admin: [u8; 5] = [97u8, 100u8, 109u8, 105u8, 110u8];
    assert(produce@ =~= seq![112u8, 114u8, 111u8, 100u8, 117u8, 99u8, 101u8]);
    assert(fetch@ =~= seq![102u8, 101u8, 116u8, 99u8, 104u8]);
    assert(admin@ =~= seq![97u8, 100u8, 109u8, 105u8, 110u8]);
    if bytes_eq_ignore_case(name, produce.as_slice()) {
        Some(Operation::Produce)
    } else if bytes_eq_ignore_case(name, fetch.as_slice()) {
        Some(Operation::Fetch)
    } else if bytes_eq_ignore_case(name, admin.as_slice()) {
        Some(Operation::Admin)
    } else {
        None
    }
}

/// The positions of the `:` separators in `s`.
pub open spec fn colons(s: Seq<u8>) -> Seq<int>
    decreases s.len(),
{
    if s.len() == 0 {
        Seq::empty()
    } else if s.last() == 58 {
        colons(s.drop_last()).push(s.len() - 1)
    } else {
        colons(s.drop_last())
    }
}

/// The rule a `principal:operation:topic_id` text stands for: exactly three
/// parts, a known operation, and a topic id that reads as a `u16` (0 otherwise).
pub open spec fn spec_parse_rule(s: Seq<u8>) -> Option<AclRuleView> {
    let c = colons(s);
    if c.len() != 2 {
        None
    } else {
        match spec_parse_op(s.subrange(c[0] + 1, c[1])) {
            Some(op) => Some(
                AclRuleView {
                    principal: s.subrange(0, c[0]),
                    op,
                    topic_id: match spec_parse_unsigned(s.subrange(c[1] + 1, s.len() as int), u16::MAX as nat) {
                        Some(v) => v as u16,
                        None => 0,
                    },
                },
            ),
            None => None,
        }
    }
}

proof fn lemma_colons_bounds(s: Seq<u8>)
    ensures
        forall|k: int| 0 <= k < colons(s).len() ==> 0 <= #[trigger] colons(s)[k] < s.len() && s[colons(s)[k]] == 58,
        forall|k: int, l: int| 0 <= k < l < colons(s).len() ==> colons(s)[k] < colons(s)[l],
    decreases s.len(),
{
    if s.len() > 0 {
        lemma_colons_bounds(s.drop_last());
        let c0 = colons(s.drop_last());
        assert forall|k: int| 0 <= k < colons(s).len() implies 0 <= #[trigger] colons(s)[k] < s.len() && s[colons(s)[k]]
            == 58 by {
            if k < c0.len() {
                assert(colons(s)[k] == c0[k]);
                assert(s.drop_last()[c0[k]] == s[c0[k]]);
            }
        }
        assert forall|k: int, l: int| 0 <= k < l < colons(s).len() implies colons(s)[k] < colons(s)[l] by {
            if l < c0.len() {
                assert(colons(s)[k] == c0[k] && colons(s)[l] == c0[l]);
            } else {
                assert(colons(s)[k] == c0[k]);
            }
        }
    }
}

/// Finds the `:` separators of `rule`, as long as there are at most three.
fn find_colons(rule: &[u8]) -> (r: Vec<usize>)
    ensures
        r@.len() <= 3,
        r@.len() < 3 ==> r@.len() == colons(rule@).len() && forall|k: int| 0 <= k < r@.len() ==> r@[k] == colons(rule@)[k],
        r@.len() == 3 ==> colons(rule@).len() >= 3,
{
    let mut found: Vec<usize> = Vec::new();
    let mut i: usize = 0;
    assert(rule@.take(0) =~= Seq::<u8>::empty());
    while i < rule.len()
        invariant
            i <= rule@.len(),
            found@.len() <= 2,
            found@.len() == colons(rule@.take(i as int)).len(),
            forall|k: int| 0 <= k < found@.len() ==> found@[k] == colons(rule@.take(i as int))[k],
        decreases rule@.len() - i,
    {
        assert(rule@.take(i + 1).drop_last() =~= rule@.take(i as int));
        if rule[i] == 58 {
            found.push(i);
            if found.len() == 3 {
                proof {
                    lemma_colons_prefix(rule@, i + 1);
                }
                return found;
            }
        }
        i = i + 1;
    }
    assert(rule@.take(i as int) =~= rule@);
    found
}

proof fn lemma_colons_prefix(s: Seq<u8>, n: int)
    requires
        0 <= n <= s.len(),
    ensures
        colons(s).len() >= colons(s.take(n)).len(),
    decreases s.len() - n,
{
    if n < s.len() {
        lemma_colons_prefix(s, n + 1);
        assert(s.take(n + 1).drop_last() =~= s.take(n));
    } else {
        assert(s.take(n) =~= s);
    }
}

/// Parses one rule (see `spec_parse_rule`).
pub fn parse_rule(rule: &[u8]) -> (r: Option<AclRule>)
    ensures
        match r {
            Some(x) => spec_parse_rule(rule@) == Some(x@),
            None => spec_parse_rule(rule@) is None,
        },
{
    let c = find_colons(rule);
    if c.len() != 2 {
        return None;
    }
    proof {
        lemma_colons_bounds(rule@);
    }
    let first = c[0];
    let second = c[1];
    assert(first == colons(rule@)[0] && second == colons(rule@)[1]);
    assert(colons(rule@).len() == 2);
    assert(0 <= colons(rule@)[1] < rule@.len());
    assert(colons(rule@)[0] < colons(rule@)[1]);
    let name = copy_range(rule, first + 1, second);
    let op = match parse_op(name.as_slice()) {
        Some(op) => op,
        None => {
            return None;
        },
    };
    let principal = copy_range(rule, 0, first);
    assert(second < rule.len());
    let topic_text = copy_range(rule, second + 1, rule.len());
    let topic_id: u16 = match parse_unsigned(topic_text.as_slice(), 65535) {
        Some(v) => v as u16,
        None => 0,
    };
    Some(AclRule { principal, op, topic_id })
}

/// The separator positions of `raw` split by `sep`: where each part starts and ends.
pub open spec fn split_parts(raw: Seq<u8>, sep: u8) -> Seq<Seq<u8>>
    decreases raw.len(),
{
    if raw.len() == 0 {
        seq![Seq::empty()]
    } else {
        let init = split_parts(raw.drop_last(), sep);
        if raw.last() == sep {
            init.push(Seq::empty())
        } else {
            init.update(init.len() - 1, init.last().push(raw.last()))
        }
    }
}

pub(crate) proof fn lemma_split_parts_nonempty(raw: Seq<u8>, sep: u8)
    ensures
        split_parts(raw, sep).len() >= 1,
    decreases raw.len(),
{
    if raw.len() > 0 {
        lemma_split_parts_nonempty(raw.drop_last(), sep);
    }
}

/// The rules that `raw` lists, `;`-separated; empty parts and parts that are not
/// rules are skipped.
/// The rules once `r` is among them: added at the end unless it is there already.
pub open spec fn with_rule(rules: Seq<AclRuleView>, r: AclRuleView) -> Seq<AclRuleView> {
    if rules.contains(r) {
        rules
    } else {
        rules.push(r)
    }
}

proof fn lemma_with_rule(rules: Seq<AclRuleView>, r: AclRuleView)
    requires
        rules.no_duplicates(),
    ensures
        with_rule(rules, r).no_duplicates(),
        with_rule(rules, r).contains(r),
{
    if !rules.contains(r) {
        let n = rules.push(r);
        assert(n[rules.len() as int] == r);
        assert forall|i: int, j: int| 0 <= i < n.len() && 0 <= j < n.len() && i != j implies n[i] != n[j] by {
            if i < rules.len() && j < rules.len() {
                assert(n[i] == rules[i] && n[j] == rules[j]);
            } else if i < rules.len() {
                assert(n[i] == rules[i]);
            } else {
                assert(n[j] == rules[j]);
            }
        }
    }
}

/// The rules that a list of settings parts adds, none twice.
pub proof fn lemma_rules_of_set(parts: Seq<Seq<u8>>)
    ensures
        rules_of(parts).no_duplicates(),
    decreases parts.len(),
{
    if parts.len() > 0 {
        lemma_rules_of_set(parts.drop_last());
        if parts.last().len() > 0 {
            match spec_parse_rule(parts.last()) {
                Some(r) => lemma_with_rule(rules_of(parts.drop_last()), r),
                None => {},
            }
        }
    }
}

pub open spec fn rules_of(parts: Seq<Seq<u8>>) -> Seq<AclRuleView>
    decreases parts.len(),
{
    if parts.len() == 0 {
        Seq::empty()
    } else {
        let init = rules_of(parts.drop_last());
        if parts.last().len() == 0 {
            init
        } else {
            match spec_parse_rule(parts.last()) {
                Some(r) => with_rule(init, r),
                None => init,
            }
        }
    }
}

/// Adds the rule that a non-empty part stands for, if it is one.
fn push_rule(acl: &mut Acl, part: &[u8])
    ensures
        final(acl)@.deny_by_default == old(acl)@.deny_by_default,
        final(acl)@.allowed == if part@.len() == 0 {
            old(acl)@.allowed
        } else {
            match spec_parse_rule(part@) {
                Some(r) => with_rule(old(acl)@.allowed, r),
                None => old(acl)@.allowed,
            }
        },
{
    if part.len() > 0 {
        match parse_rule(part) {
            Some(rule) => acl.add_rule(rule),
            None => {},
        }
    }
}

impl Acl {
    /// An ACL with no rules.
    pub fn new(deny_by_default: bool) -> (a: Acl)
        ensures
            a@.allowed == Seq::<AclRuleView>::empty(),
            a@.deny_by_default == deny_by_default,
            a@.wf(),
    {
        let a = Acl { allowed: Vec::new(), deny_by_default };
        assert(a@.allowed =~= Seq::<AclRuleView>::empty());
        a
    }

    /// Adds `rule` unless it is there already.
    fn add_rule(&mut self, rule: AclRule)
        ensures
            final(self)@.allowed == with_rule(old(self)@.allowed, rule@),
            final(self)@.deny_by_default == old(self)@.deny_by_default,
    {
        let present = self.allows_exactly(rule.principal.as_slice(), rule.op, rule.topic_id);
        assert(rule@ == (AclRuleView { principal: rule.principal@, op: rule.op, topic_id: rule.topic_id }));
        proof {
            if self@.allowed.contains(rule@) {
                let i = choose|i: int| 0 <= i < self@.allowed.len() && self@.allowed[i] == rule@;
                assert(self@.allowed[i] == rule@);
            }
        }
        if !present {
            let ghost before = self@.allowed;
            self.allowed.push(rule);
            assert(self@.allowed =~= before.push(rule@));
        }
    }

    /// Allows `principal` `op` on `topic_id` (0: every topic); a rule already
    /// held is not added again.
    pub fn allow(&mut self, principal: &[u8], op: Operation, topic_id: u16)
        ensures
            final(self)@.allowed == with_rule(old(self)@.allowed, AclRuleView { principal: principal@, op, topic_id }),
            final(self)@.deny_by_default == old(self)@.deny_by_default,
            old(self)@.wf() ==> final(self)@.wf(),
    {
        let rule = AclRule { principal: copy_range(principal, 0, principal.len()), op, topic_id };
        assert(rule.principal@ =~= principal@);
        proof {
            if self@.wf() {
                lemma_with_rule(self@.allowed, rule@);
            }
        }
        self.add_rule(rule);
    }

    /// The ACL that the settings describe: deny by default when the first setting
    /// is `1` or `true` (any case), and the `;`-separated rules of the second.
    pub fn from_settings(deny_setting: Option<&[u8]>, rules: Option<&[u8]>) -> (a: Acl)
        ensures
            a@.deny_by_default == match deny_setting {
                Some(v) => crate::protocol::setting_on(v@),
                None => false,
            },
            a@.allowed == match rules {
                Some(raw) => rules_of(split_parts(raw@, 59)),
                None => Seq::<AclRuleView>::empty(),
            },
            a@.wf(),
    {
        let deny = crate::protocol::flag_enabled(deny_setting);
        let mut acl = Acl::new(deny);
        match rules {
            None => {},
            Some(raw) => {
                let mut start: usize = 0;
                let mut i: usize = 0;
                proof {
                    assert(raw@.take(0) =~= Seq::<u8>::empty());
                    assert(split_parts(raw@.take(0), 59).drop_last() =~= Seq::<Seq<u8>>::empty());
                    assert(raw@.subrange(0, 0) =~= Seq::<u8>::empty());
                }
                while i < raw.len()
                    invariant
                        start <= i <= raw@.len(),
                        split_parts(raw@.take(i as int), 59).len() >= 1,
                        split_parts(raw@.take(i as int), 59).last() == raw@.subrange(start as int, i as int),
                        acl@.allowed == rules_of(split_parts(raw@.take(i as int), 59).drop_last()),
                        acl@.deny_by_default == deny,
                    decreases raw@.len() - i,
                {
                    let ghost before = split_parts(raw@.take(i as int), 59);
                    proof {
                        assert(raw@.take(i + 1).drop_last() =~= raw@.take(i as int));
                        assert(raw@.take(i + 1).last() == raw@[i as int]);
                    }
                    if raw[i] == 59 {
                        let part = copy_range(raw, start, i);
                        self::push_rule(&mut acl, part.as_slice());
                        proof {
                            assert(before.drop_last().push(before.last()) =~= before);
                            assert(split_parts(raw@.take(i + 1), 59).drop_last() =~= before);
                            assert(raw@.subrange(i + 1, i + 1) =~= Seq::<u8>::empty());
                        }
                        start = i + 1;
                    } else {
                        proof {
                            assert(raw@.subrange(start as int, i + 1) =~= raw@.subrange(start as int, i as int).push(
                                raw@[i as int],
                            ));
                            assert(split_parts(raw@.take(i + 1), 59).drop_last() =~= before.drop_last());
                        }
                    }
                    i = i + 1;
                }
                let ghost before = split_parts(raw@.take(i as int), 59);
                let part = copy_range(raw, start, i);
                self::push_rule(&mut acl, part.as_slice());
                proof {
                    assert(before.drop_last().push(before.last()) =~= before);
                    assert(raw@.take(i as int) =~= raw@);
                    lemma_rules_of_set(split_parts(raw@, 59));
                }
            },
        }
        acl
    }

    pub fn is_configured(&self) -> (r: bool)
        ensures
            r == self@.is_configured(),
    {
        self.deny_by_default || self.allowed.len() > 0
    }

    fn allows_exactly(&self, principal: &[u8], op: Operation, topic_id: u16) -> (r: bool)
        ensures
            r == self@.allows_exactly(principal@, op, topic_id),
    {
        let mut i: usize = 0;
        while i < self.allowed.len()
            invariant
                i <= self.allowed@.len(),
                forall|j: int| 0 <= j < i ==> self@.allowed[j] != (AclRuleView { principal: principal@, op, topic_id }),
            decreases self.allowed@.len() - i,
        {
            let rule = &self.allowed[i];
            assert(self@.allowed[i as int] == rule@);
            if rule.op == op && rule.topic_id == topic_id && bytes_eq(rule.principal.as_slice(), principal) {
                return true;
            }
            i = i + 1;
        }
        false
    }

    /// Checks whether `principal` may perform `op` on `topic_id` (see `AclView::check`).
    pub fn check(&self, principal: &[u8], op: Operation, topic_id: u16) -> (r: Result<(), DmqError>)
        ensures
            r == self@.check(principal@, op, topic_id),
    {
        if !self.is_configured() {
            return Ok(());
        }
        let star: [u8; 1] = [42u8];
        assert(star@ =~= wildcard());
        if self.allows_exactly(principal, op, topic_id) || self.allows_exactly(principal, op, 0)
            || self.allows_exactly(star.as_slice(), op, topic_id) || self.allows_exactly(star.as_slice(), op, 0) {
            return Ok(());
        }
        if self.deny_by_default {
            return Err(DmqError::AclDenied);
        }
        Ok(())
    }
}

impl Default for Acl {
    fn default() -> (a: Acl)
        ensures
            a@.allowed == Seq::<AclRuleView>::empty(),
            !a@.deny_by_default,
            a@.wf(),
    {
        Acl::new(false)
    }
}

/// A check passes whenever one of the four rules that cover it is listed: the
/// principal or anyone (`*`), for the topic or for every topic (0).
pub proof fn lemma_listed_rule_allows(a: AclView, principal: Seq<u8>, op: Operation, topic_id: u16)
    requires
        a.allowed.contains(AclRuleView { principal, op, topic_id })
            || a.allowed.contains(AclRuleView { principal, op, topic_id: 0 })
            || a.allowed.contains(AclRuleView { principal: seq![42u8], op, topic_id })
            || a.allowed.contains(AclRuleView { principal: seq![42u8], op, topic_id: 0 }),
    ensures
        a.check(principal, op, topic_id) == Ok::<(), DmqError>(()),
{
    let rs = seq![
        AclRuleView { principal, op, topic_id },
        AclRuleView { principal, op, topic_id: 0 },
        AclRuleView { principal: seq![42u8], op, topic_id },
        AclRuleView { principal: seq![42u8], op, topic_id: 0 },
    ];
    assert(exists|k: int| 0 <= k < 4 && #[trigger] a.allowed.contains(rs[k]));
    let k = choose|k: int| 0 <= k < 4 && #[trigger] a.allowed.contains(rs[k]);
    let i = choose|i: int| 0 <= i < a.allowed.len() && a.allowed[i] == rs[k];
    assert(a.allowed[i] == rs[k]);
    assert(a.allowed.len() > 0);
    assert(wildcard() =~= seq![42u8]);
}

/// With no rules and no default denial every check passes; with default denial
/// a check that no covering rule lists is refused.
pub proof fn lemma_unlisted_refused(a: AclView, principal: Seq<u8>, op: Operation, topic_id: u16)
    requires
        a.deny_by_default,
        !a.allowed.contains(AclRuleView { principal, op, topic_id }),
        !a.allowed.contains(AclRuleView { principal, op, topic_id: 0 }),
        !a.allowed.contains(AclRuleView { principal: seq![42u8], op, topic_id }),
        !a.allowed.contains(AclRuleView { principal: seq![42u8], op, topic_id: 0 }),
    ensures
        a.check(principal, op, topic_id) == Err::<(), DmqError>(DmqError::AclDenied),
{
    assert(wildcard() =~= seq![42u8]);
    if a.allows_exactly(principal, op, topic_id) {
        let i = choose|i: int| 0 <= i < a.allowed.len() && #[trigger] a.allowed[i] == (AclRuleView { principal, op, topic_id });
        assert(a.allowed.contains(AclRuleView { principal, op, topic_id }));
    }
    if a.allows_exactly(principal, op, 0) {
        let i = choose|i: int| 0 <= i < a.allowed.len() && #[trigger] a.allowed[i] == (AclRuleView { principal, op, topic_id: 0 });
        assert(a.allowed.contains(AclRuleView { principal, op, topic_id: 0 }));
    }
    if a.allows_exactly(wildcard(), op, topic_id) {
        let i = choose|i: int| 0 <= i < a.allowed.len() && #[trigger] a.allowed[i] == (AclRuleView { principal: wildcard(), op, topic_id });
        assert(a.allowed.contains(AclRuleView { principal: seq![42u8], op, topic_id }));
    }
    if a.allows_exactly(wildcard(), op, 0) {
        let i = choose|i: int| 0 <= i < a.allowed.len() && #[trigger] a.allowed[i] == (AclRuleView { principal: wildcard(), op, topic_id: 0 });
        assert(a.allowed.contains(AclRuleView { principal: seq![42u8], op, topic_id: 0 }));
    }
}

/// A rule that is added is honoured, and a refusal only ever comes from an ACL
/// that denies by default.
pub proof fn lemma_allow_then_check(a: AclView, principal: Seq<u8>, op: Operation, topic_id: u16)
    ensures
        (AclView { allowed: with_rule(a.allowed, AclRuleView { principal, op, topic_id }), ..a }).check(
            principal,
            op,
            topic_id,
        ) == Ok::<(), DmqError>(()),
        a.check(principal, op, topic_id) is Err ==> a.deny_by_default,
{
    let r = AclRuleView { principal, op, topic_id };
    let b = AclView { allowed: with_rule(a.allowed, r), ..a };
    if a.allowed.contains(r) {
        let i = choose|i: int| 0 <= i < a.allowed.len() && a.allowed[i] == r;
        assert(b.allowed[i] == r);
    } else {
        assert(b.allowed[a.allowed.len() as int] == r);
    }
    assert(b.allows_exactly(principal, op, topic_id));
}

} // verus!

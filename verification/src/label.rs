//! Title canonicalization and label derivation.
//!
//! A leaf window's raw title is folded to a fixed application tag when it
//! matches a rule's substring pattern; a workspace's set of canonical names
//! is then reduced to one display label.

use vstd::prelude::*;

verus! {

/// One canonicalization rule: any title containing `pattern` is replaced by
/// `tag`.
pub struct CanonRule {
    pub pattern: String,
    pub tag: String,
}

/// `pat` occurs in `s` starting at position `i`.
pub open spec fn matches_at(s: Seq<char>, pat: Seq<char>, i: int) -> bool {
    0 <= i && i + pat.len() <= s.len() && s.subrange(i, i + pat.len() as int) == pat
}

/// `pat` occurs somewhere in `s`.
pub open spec fn contains_pat(s: Seq<char>, pat: Seq<char>) -> bool {
    exists|i: int| matches_at(s, pat, i)
}

/// The canonical form of a name under a rule table: the tag of the first
/// rule whose pattern the name contains, or the name itself if none does.
pub open spec fn canon(rules: Seq<CanonRule>, name: Seq<char>) -> Seq<char>
    decreases rules.len(),
{
    if rules.len() == 0 {
        name
    } else if contains_pat(name, rules[0].pattern@) {
        rules[0].tag@
    } else {
        canon(rules.drop_first(), name)
    }
}

/// Whether `pat` occurs in `s` (substring search over characters).
pub fn contains_substr(s: &str, pat: &str) -> (r: bool)
    ensures
        r == contains_pat(s@, pat@),
{
    let n = s.unicode_len();
    let m = pat.unicode_len();
    if m > n {
        assert(forall|i: int| !matches_at(s@, pat@, i));
        return false;
    }
    if m == 0 {
        proof {
            assert(s@.subrange(0, 0) =~= pat@);
            assert(matches_at(s@, pat@, 0));
        }
        return true;
    }
    let mut i: usize = 0;
    while i <= n - m
        invariant
            n == s@.len(),
            m == pat@.len(),
            1 <= m <= n,
            i <= n - m + 1,
            forall|k: int| 0 <= k < i ==> !matches_at(s@, pat@, k),
        decreases n - i,
    {
        let mut j: usize = 0;
        let mut mismatch = false;
        while j < m
            invariant
                n == s@.len(),
                m == pat@.len(),
                i + m <= n,
                j <= m,
                !mismatch ==> forall|k: int| 0 <= k < j ==> s@[i + k] == pat@[k],
                mismatch ==> !matches_at(s@, pat@, i as int),
            decreases m - j,
        {
            if s.get_char(i + j) != pat.get_char(j) {
                proof {
                    if matches_at(s@, pat@, i as int) {
                        assert(s@.subrange(i as int, i + m as int)[j as int] == pat@[j as int]);
                    }
                }
                mismatch = true;
                j = m;
            } else {
                j = j + 1;
            }
        }
        if !mismatch {
            proof {
                assert(s@.subrange(i as int, i + m as int) =~= pat@);
                assert(matches_at(s@, pat@, i as int));
            }
            return true;
        }
        i = i + 1;
    }
    proof {
        assert forall|k: int| !matches_at(s@, pat@, k) by {
            if 0 <= k && k + pat@.len() <= s@.len() {
                assert(k < i);
            }
        }
    }
    false
}

/// The canonical form of a name under the rule table.
pub fn canonicalize(rules: &Vec<CanonRule>, name: &String) -> (r: String)
    ensures
        r@ == canon(rules@, name@),
{
    proof {
        assert(rules@.skip(0) =~= rules@);
    }
    let mut k: usize = 0;
    while k < rules.len()
        invariant
            k <= rules@.len(),
            canon(rules@, name@) == canon(rules@.skip(k as int), name@),
        decreases rules@.len() - k,
    {
        proof {
            assert(rules@.skip(k as int)[0] == rules@[k as int]);
            assert(rules@.skip(k as int).drop_first() =~= rules@.skip(k as int + 1));
        }
        if contains_substr(name.as_str(), rules[k].pattern.as_str()) {
            return rules[k].tag.clone();
        }
        k = k + 1;
    }
    name.clone()
}

/// Whether two strings hold the same characters.
pub fn str_eq(a: &str, b: &str) -> (r: bool)
    ensures
        r == (a@ == b@),
{
    let na = a.unicode_len();
    let nb = b.unicode_len();
    if na != nb {
        return false;
    }
    let mut i: usize = 0;
    while i < na
        invariant
            na == a@.len(),
            na == b@.len(),
            i <= na,
            forall|k: int| 0 <= k < i ==> a@[k] == b@[k],
        decreases na - i,
    {
        if a.get_char(i) != b.get_char(i) {
            return false;
        }
        i = i + 1;
    }
    proof {
        assert(a@ =~= b@);
    }
    true
}

/// A rule table is coherent when each of its tags is itself canonical:
/// folding a tag again changes nothing.
pub open spec fn rules_idempotent(rules: Seq<CanonRule>) -> bool {
    forall|k: int|
        0 <= k < rules.len() ==> canon(rules, #[trigger] rules[k].tag@) == rules[k].tag@
}

/// Canonicalization returns the name itself or one of the table's tags.
proof fn lemma_canon_result(rules: Seq<CanonRule>, name: Seq<char>)
    ensures
        canon(rules, name) == name || exists|k: int|
            0 <= k < rules.len() && canon(rules, name) == #[trigger] rules[k].tag@,
    decreases rules.len(),
{
    if rules.len() > 0 {
        if contains_pat(name, rules[0].pattern@) {
            assert(canon(rules, name) == rules[0].tag@);
        } else {
            lemma_canon_result(rules.drop_first(), name);
            if canon(rules.drop_first(), name) != name {
                let k = choose|k: int|
                    0 <= k < rules.drop_first().len() && canon(rules.drop_first(), name)
                        == #[trigger] rules.drop_first()[k].tag@;
                assert(rules.drop_first()[k] == rules[k + 1]);
                assert(canon(rules, name) == rules[k + 1].tag@);
            }
        }
    }
}

/// Canonicalization under a coherent rule table is idempotent: an
/// already-canonical name comes back unchanged, and applying the rules
/// twice equals applying them once.
pub proof fn lemma_canon_idempotent(rules: Seq<CanonRule>, name: Seq<char>)
    requires
        rules_idempotent(rules),
    ensures
        canon(rules, canon(rules, name)) == canon(rules, name),
{
    lemma_canon_result(rules, name);
    if canon(rules, name) != name {
        let k = choose|k: int|
            0 <= k < rules.len() && canon(rules, name) == #[trigger] rules[k].tag@;
        assert(canon(rules, rules[k].tag@) == rules[k].tag@);
    }
}

/// The shipped rule table is coherent: its tag contains no pattern of the
/// table, so folding twice equals folding once.
pub proof fn lemma_default_rules_idempotent(rules: Seq<CanonRule>)
    requires
        rules.len() == 1,
        rules[0].pattern@ == "Nightly"@,
        rules[0].tag@ == "firefox"@,
    ensures
        rules_idempotent(rules),
{
    reveal_strlit("Nightly");
    reveal_strlit("firefox");
    assert forall|k: int|
        0 <= k < rules.len() implies canon(rules, #[trigger] rules[k].tag@) == rules[k].tag@ by {
        assert(!contains_pat("firefox"@, "Nightly"@)) by {
            if contains_pat("firefox"@, "Nightly"@) {
                let i = choose|i: int| matches_at("firefox"@, "Nightly"@, i);
                assert(i == 0);
                assert("firefox"@.subrange(0, 7)[0] == 'N');
                assert("firefox"@[0] == 'f');
            }
        }
        assert(rules.drop_first().len() == 0);
        assert(canon(rules.drop_first(), "firefox"@) == "firefox"@);
        assert(!contains_pat("firefox"@, rules[0].pattern@));
        assert(canon(rules, "firefox"@) == canon(rules.drop_first(), "firefox"@));
    }
}

/// Strict lexicographic order on names, by code point.
pub open spec fn lex_lt(a: Seq<char>, b: Seq<char>) -> bool
    decreases a.len(),
{
    if b.len() == 0 {
        false
    } else if a.len() == 0 {
        true
    } else if (a[0] as u32) < (b[0] as u32) {
        true
    } else if (a[0] as u32) == (b[0] as u32) {
        lex_lt(a.drop_first(), b.drop_first())
    } else {
        false
    }
}

/// Any two names are ordered or equal.
pub proof fn lemma_lex_lt_trichotomy(a: Seq<char>, b: Seq<char>)
    ensures
        lex_lt(a, b) || lex_lt(b, a) || a == b,
    decreases a.len(),
{
    if a.len() == 0 && b.len() == 0 {
        assert(a =~= b);
    } else if a.len() > 0 && b.len() > 0 {
        if (a[0] as u32) == (b[0] as u32) {
            lemma_lex_lt_trichotomy(a.drop_first(), b.drop_first());
            if !lex_lt(a, b) && !lex_lt(b, a) {
                assert(a.drop_first() == b.drop_first());
                vstd::utf8::char_u32_cast(a[0], a[0] as u32);
                vstd::utf8::char_u32_cast(b[0], b[0] as u32);
                assert(a[0] == b[0]);
                assert forall|i: int| 0 <= i < a.len() implies a[i] == b[i] by {
                    if i > 0 {
                        assert(a.drop_first()[i - 1] == b.drop_first()[i - 1]);
                    }
                }
                assert(a =~= b);
            }
        }
    }
}

/// No name is below itself.
pub proof fn lemma_lex_lt_irrefl(a: Seq<char>)
    ensures
        !lex_lt(a, a),
    decreases a.len(),
{
    if a.len() > 0 {
        lemma_lex_lt_irrefl(a.drop_first());
    }
}

/// The order is transitive.
pub proof fn lemma_lex_lt_trans(a: Seq<char>, b: Seq<char>, c: Seq<char>)
    requires
        lex_lt(a, b),
        lex_lt(b, c),
    ensures
        lex_lt(a, c),
    decreases a.len(),
{
    if a.len() > 0 && b.len() > 0 && c.len() > 0 {
        if (a[0] as u32) == (b[0] as u32) && (b[0] as u32) == (c[0] as u32) {
            lemma_lex_lt_trans(a.drop_first(), b.drop_first(), c.drop_first());
        }
    }
}

/// Whether `a` is strictly below `b` in the lexicographic order.
pub fn str_lex_lt(a: &str, b: &str) -> (r: bool)
    ensures
        r == lex_lt(a@, b@),
{
    let na = a.unicode_len();
    let nb = b.unicode_len();
    proof {
        assert(a@.skip(0) =~= a@);
        assert(b@.skip(0) =~= b@);
    }
    let mut i: usize = 0;
    while i < na && i < nb
        invariant
            na == a@.len(),
            nb == b@.len(),
            i <= na,
            i <= nb,
            lex_lt(a@, b@) == lex_lt(a@.skip(i as int), b@.skip(i as int)),
        decreases na - i,
    {
        let ca = a.get_char(i);
        let cb = b.get_char(i);
        proof {
            assert(a@.skip(i as int)[0] == a@[i as int]);
            assert(b@.skip(i as int)[0] == b@[i as int]);
        }
        if (ca as u32) < (cb as u32) {
            return true;
        }
        if (ca as u32) > (cb as u32) {
            return false;
        }
        proof {
            assert(a@.skip(i as int).drop_first() =~= a@.skip(i as int + 1));
            assert(b@.skip(i as int).drop_first() =~= b@.skip(i as int + 1));
        }
        i = i + 1;
    }
    proof {
        assert(a@.skip(i as int).len() == na - i);
        assert(b@.skip(i as int).len() == nb - i);
    }
    i < nb
}

/// Taking one more element of a sequence adds exactly that element to the
/// set of its members.
proof fn lemma_take_succ_to_set(s: Seq<Seq<char>>, t: int)
    requires
        0 <= t < s.len(),
    ensures
        s.take(t + 1).to_set() == s.take(t).to_set().insert(s[t]),
{
    let a = s.take(t);
    let b = s.take(t + 1);
    assert forall|x: Seq<char>| b.to_set().contains(x) implies a.to_set().insert(s[t]).contains(
        x,
    ) by {
        let w = choose|w: int| 0 <= w < b.len() && b[w] == x;
        if w < t {
            assert(a[w] == x);
            assert(a.contains(x));
        } else {
            assert(x == s[t]);
        }
    }
    assert forall|x: Seq<char>| a.to_set().insert(s[t]).contains(x) implies b.to_set().contains(
        x,
    ) by {
        if x == s[t] {
            assert(b[t] == x);
            assert(b.contains(x));
        } else {
            let w = choose|w: int| 0 <= w < a.len() && a[w] == x;
            assert(b[w] == x);
            assert(b.contains(x));
        }
    }
    assert(b.to_set() =~= a.to_set().insert(s[t]));
}

/// Inserting an element anywhere adds exactly it to the set of members.
proof fn lemma_seq_insert_to_set(s: Seq<Seq<char>>, p: int, x: Seq<char>)
    requires
        0 <= p <= s.len(),
    ensures
        s.insert(p, x).to_set() == s.to_set().insert(x),
{
    let b = s.insert(p, x);
    assert(b.len() == s.len() + 1);
    assert forall|y: Seq<char>| b.to_set().contains(y) implies s.to_set().insert(x).contains(
        y,
    ) by {
        let w = choose|w: int| 0 <= w < b.len() && b[w] == y;
        if w < p {
            assert(s[w] == y);
            assert(s.contains(y));
        } else if w == p {
            assert(y == x);
        } else {
            assert(s[w - 1] == y);
            assert(s.contains(y));
        }
    }
    assert forall|y: Seq<char>| s.to_set().insert(x).contains(y) implies b.to_set().contains(
        y,
    ) by {
        if y == x {
            assert(b[p] == y);
            assert(b.contains(y));
        } else {
            let w = choose|w: int| 0 <= w < s.len() && s[w] == y;
            if w < p {
                assert(b[w] == y);
            } else {
                assert(b[w + 1] == y);
            }
            assert(b.contains(y));
        }
    }
    assert(b.to_set() =~= s.to_set().insert(x));
}

/// A sequence of names that is strictly increasing, hence free of
/// duplicates.
pub open spec fn strictly_sorted(s: Seq<Seq<char>>) -> bool {
    forall|i: int, j: int| 0 <= i < j < s.len() ==> lex_lt(#[trigger] s[i], #[trigger] s[j])
}

/// Sorts the names and removes duplicates: the result is the strictly
/// increasing enumeration of the distinct input names.
pub fn sort_dedup(names: &Vec<String>) -> (r: Vec<String>)
    ensures
        strictly_sorted(r.deep_view()),
        r.deep_view().to_set() == names.deep_view().to_set(),
{
    let mut out: Vec<String> = Vec::new();
    proof {
        assert(names.deep_view().take(0) =~= Seq::<Seq<char>>::empty());
        assert(out.deep_view().to_set() =~= names.deep_view().take(0).to_set());
    }
    let mut t: usize = 0;
    while t < names.len()
        invariant
            t <= names@.len(),
            names.deep_view().len() == names@.len(),
            strictly_sorted(out.deep_view()),
            out.deep_view().to_set() == names.deep_view().take(t as int).to_set(),
        decreases names@.len() - t,
    {
        let s: &String = &names[t];
        let ghost pre = out.deep_view();
        let mut p: usize = 0;
        while p < out.len() && str_lex_lt(out[p].as_str(), s.as_str())
            invariant
                out.deep_view() == pre,
                out.deep_view().len() == out@.len(),
                p <= out@.len(),
                forall|k: int| 0 <= k < p ==> lex_lt(#[trigger] pre[k], s@),
            decreases out@.len() - p,
        {
            p = p + 1;
        }
        let duplicate = p < out.len() && out[p].eq(s);
        if !duplicate {
            proof {
                if p < pre.len() {
                    lemma_lex_lt_trichotomy(pre[p as int], s@);
                    assert(pre[p as int] == out@[p as int]@);
                    assert(lex_lt(s@, pre[p as int]));
                }
            }
            out.insert(p, s.clone());
            proof {
                let post = out.deep_view();
                assert(post =~= pre.insert(p as int, s@));
                assert forall|i: int, j: int| 0 <= i < j < post.len() implies lex_lt(
                    #[trigger] post[i],
                    #[trigger] post[j],
                ) by {
                    if j < p {
                        assert(post[i] == pre[i]);
                        assert(post[j] == pre[j]);
                    } else if j == p {
                        assert(post[i] == pre[i]);
                        assert(post[j] == s@);
                    } else if i < p {
                        assert(post[i] == pre[i]);
                        assert(post[j] == pre[j - 1]);
                        assert(i < j - 1);
                    } else if i == p {
                        assert(post[i] == s@);
                        assert(post[j] == pre[j - 1]);
                        assert(p < pre.len());
                        if j - 1 > p {
                            lemma_lex_lt_trans(s@, pre[p as int], pre[j - 1]);
                        }
                    } else {
                        assert(post[i] == pre[i - 1]);
                        assert(post[j] == pre[j - 1]);
                    }
                }
            }
        }
        proof {
            let post = out.deep_view();
            let tv = names.deep_view();
            lemma_take_succ_to_set(tv, t as int);
            assert(tv[t as int] == s@);
            if duplicate {
                assert(pre[p as int] == s@);
                assert(pre.to_set().contains(s@));
                assert(pre.to_set().insert(s@) =~= pre.to_set());
            } else {
                assert(post =~= pre.insert(p as int, s@));
                lemma_seq_insert_to_set(pre, p as int, s@);
            }
            assert(post.to_set() == tv.take(t + 1).to_set());
        }
        t = t + 1;
    }
    proof {
        assert(names.deep_view().take(t as int) =~= names.deep_view());
    }
    out
}

/// The label a distinct name set is reduced to: "empty" for no names, the
/// name itself for exactly one, "mixed" for two or more.
pub open spec fn label_of_set(s: Set<Seq<char>>) -> Seq<char> {
    if s.finite() && s.len() == 0 {
        "empty"@
    } else if s.finite() && s.len() == 1 {
        s.choose()
    } else {
        "mixed"@
    }
}

/// A strictly increasing sequence holds no name twice.
pub proof fn lemma_strictly_sorted_no_duplicates(s: Seq<Seq<char>>)
    requires
        strictly_sorted(s),
    ensures
        s.no_duplicates(),
{
    assert forall|i: int, j: int|
        0 <= i < s.len() && 0 <= j < s.len() && i != j implies s[i] != s[j] by {
        if i < j {
            lemma_lex_lt_irrefl(s[i]);
        } else {
            lemma_lex_lt_irrefl(s[j]);
        }
    }
}

/// The label a name list is reduced to, by its length: "empty" for no
/// names, the name itself for exactly one, "mixed" for two or more.
pub open spec fn label_of_names(names: Seq<Seq<char>>) -> Seq<char> {
    if names.len() == 0 {
        "empty"@
    } else if names.len() == 1 {
        names[0]
    } else {
        "mixed"@
    }
}

/// On a duplicate-free name list the label is a function of the name set
/// alone, so it cannot depend on the order the names were collected in.
pub proof fn lemma_label_of_sorted_names(names: Seq<Seq<char>>)
    requires
        strictly_sorted(names),
    ensures
        label_of_names(names) == label_of_set(names.to_set()),
{
    lemma_strictly_sorted_no_duplicates(names);
    names.unique_seq_to_set();
    if names.len() == 0 {
        assert(names.to_set() =~= Set::<Seq<char>>::empty());
    } else if names.len() == 1 {
        let sv = names.to_set();
        assert(names.contains(names[0]));
        assert(sv.contains(names[0]));
        assert(sv.contains(sv.choose()));
        assert(names.contains(sv.choose()));
        let w = choose|w: int| 0 <= w < names.len() && names[w] == sv.choose();
        assert(w == 0);
    }
}

/// Two collections with the same distinct names derive the same label,
/// whatever order either was collected in.
pub proof fn lemma_label_permutation_invariant(a: Seq<Seq<char>>, b: Seq<Seq<char>>)
    requires
        strictly_sorted(a),
        strictly_sorted(b),
        a.to_set() == b.to_set(),
    ensures
        label_of_names(a) == label_of_names(b),
{
    lemma_label_of_sorted_names(a);
    lemma_label_of_sorted_names(b);
}

/// Reduces a workspace's name list to its display label.
pub fn derive_label(names: &Vec<String>) -> (r: String)
    ensures
        r@ == label_of_names(names.deep_view()),
{
    proof {
        assert(names.deep_view().len() == names@.len());
    }
    if names.len() == 1 {
        names[0].clone()
    } else if names.len() == 0 {
        "empty".to_owned()
    } else {
        "mixed".to_owned()
    }
}

/// The rule table shipped with the library: any title containing
/// "Nightly" is folded to the tag "firefox".
pub fn default_rules() -> (r: Vec<CanonRule>)
    ensures
        r@.len() == 1,
        r@[0].pattern@ == "Nightly"@,
        r@[0].tag@ == "firefox"@,
{
    let mut v: Vec<CanonRule> = Vec::new();
    v.push(CanonRule { pattern: "Nightly".to_owned(), tag: "firefox".to_owned() });
    v
}

} // verus!

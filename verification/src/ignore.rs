use vstd::prelude::*;

use crate::text::{join, join_strings, owned, push_str, strings_view};

verus! {

/// The names whose flag is set, in order.
pub open spec fn set_names(names: Seq<Seq<char>>, set: Seq<bool>) -> Seq<Seq<char>>
    decreases names.len(),
{
    if names.len() == 0 {
        Seq::empty()
    } else {
        let n = names.len() - 1;
        set_names(names.drop_last(), set.take(n)) + if set[n] {
            seq![names.last()]
        } else {
            Seq::empty()
        }
    }
}

/// Whether no flag is set.
pub open spec fn none_set(set: Seq<bool>) -> bool {
    forall|i: int| 0 <= i < set.len() ==> !#[trigger] set[i]
}

/// The reasons to ignore an entry's tests: one for the `ignore_if_env` names
/// that are set, one for an `ignore_unless_env` list none of whose names is set.
pub open spec fn ignore_reasons(
    if_names: Seq<Seq<char>>,
    if_set: Seq<bool>,
    unless_names: Seq<Seq<char>>,
    unless_set: Seq<bool>,
) -> Seq<Seq<char>> {
    let set = set_names(if_names, if_set);
    let first = if set.len() > 0 {
        seq!["unset "@ + join(set, "/"@) + " to run"@]
    } else {
        Seq::empty()
    };
    let second = if unless_names.len() > 0 && none_set(unless_set) {
        seq!["set "@ + join(unless_names, "/"@) + " to run"@]
    } else {
        Seq::empty()
    };
    first + second
}

/// The reason to mark an entry's tests `#[ignore]`, if any: its reasons joined by `; `.
pub open spec fn ignore_reason(
    if_names: Seq<Seq<char>>,
    if_set: Seq<bool>,
    unless_names: Seq<Seq<char>>,
    unless_set: Seq<bool>,
) -> Option<Seq<char>> {
    let r = ignore_reasons(if_names, if_set, unless_names, unless_set);
    if r.len() == 0 {
        None
    } else {
        Some(join(r, "; "@))
    }
}

proof fn lemma_set_names_empty(names: Seq<Seq<char>>, set: Seq<bool>)
    requires
        names.len() == set.len(),
    ensures
        set_names(names, set).len() == 0 <==> none_set(set),
    decreases names.len(),
{
    if names.len() > 0 {
        let n = names.len() - 1;
        lemma_set_names_empty(names.drop_last(), set.take(n));
        if none_set(set) {
            assert forall|i: int| 0 <= i < set.take(n).len() implies !#[trigger] set.take(n)[i] by {
                assert(set.take(n)[i] == set[i]);
            }
        } else if !set[n] {
            let i = choose|i: int| 0 <= i < set.len() && set[i];
            assert(set.take(n)[i] == set[i]);
        }
    }
}

/// Decides whether an entry's tests are ignored, given which of the named
/// environment variables are set (`if_set[i]` tells whether `ignore_if_env[i]`
/// is set, `unless_set[i]` whether `ignore_unless_env[i]` is): the tests are
/// ignored when any `ignore_if_env` variable is set, or when `ignore_unless_env`
/// names variables and none of them is set. Returns `None` when they run.
pub fn compute_ignore_reason(
    ignore_if_env: &Vec<String>,
    if_set: &Vec<bool>,
    ignore_unless_env: &Vec<String>,
    unless_set: &Vec<bool>,
) -> (reason: Option<String>)
    requires
        if_set@.len() == ignore_if_env@.len(),
        unless_set@.len() == ignore_unless_env@.len(),
    ensures
        match reason {
            Some(r) => ignore_reason(strings_view(ignore_if_env@), if_set@, strings_view(ignore_unless_env@), unless_set@) == Some(r@),
            None => ignore_reason(strings_view(ignore_if_env@), if_set@, strings_view(ignore_unless_env@), unless_set@) is None,
        },
        reason is None <==> (none_set(if_set@) && (ignore_unless_env@.len() == 0 || !none_set(unless_set@))),
{
    let ghost if_names = strings_view(ignore_if_env@);
    let ghost unless_names = strings_view(ignore_unless_env@);
    let mut reasons: Vec<String> = Vec::new();

    let mut set_vars: Vec<String> = Vec::new();
    let mut i: usize = 0;
    while i < ignore_if_env.len()
        invariant
            if_names == strings_view(ignore_if_env@),
            if_set@.len() == ignore_if_env@.len(),
            i <= ignore_if_env@.len(),
            strings_view(set_vars@) == set_names(if_names.take(i as int), if_set@.take(i as int)),
        decreases ignore_if_env@.len() - i,
    {
        let ghost before = set_vars@;
        assert(if_names.take(i + 1).drop_last() =~= if_names.take(i as int));
        assert(if_set@.take(i + 1).take(i as int) =~= if_set@.take(i as int));
        if if_set[i] {
            set_vars.push(ignore_if_env[i].clone());
            assert(strings_view(set_vars@) =~= strings_view(before) + seq![ignore_if_env@[i as int]@]);
        } else {
            assert(strings_view(set_vars@) =~= strings_view(before) + Seq::<Seq<char>>::empty());
        }
        i = i + 1;
    }
    assert(if_names.take(ignore_if_env@.len() as int) =~= if_names);
    assert(if_set@.take(ignore_if_env@.len() as int) =~= if_set@);
    proof {
        lemma_set_names_empty(if_names, if_set@);
    }
    let ghost set = set_names(if_names, if_set@);
    if set_vars.len() > 0 {
        let mut r = owned("unset ");
        let joined = join_strings(&set_vars, "/");
        push_str(&mut r, joined.as_str());
        push_str(&mut r, " to run");
        reasons.push(r);
    }

    let mut all_unset = true;
    let mut j: usize = 0;
    while j < unless_set.len()
        invariant
            j <= unless_set@.len(),
            all_unset == (forall|k: int| 0 <= k < j ==> !unless_set@[k]),
        decreases unless_set@.len() - j,
    {
        if unless_set[j] {
            all_unset = false;
        }
        j = j + 1;
    }
    if ignore_unless_env.len() > 0 && all_unset {
        let mut r = owned("set ");
        let joined = join_strings(ignore_unless_env, "/");
        push_str(&mut r, joined.as_str());
        push_str(&mut r, " to run");
        reasons.push(r);
    }
    let ghost expected = ignore_reasons(if_names, if_set@, unless_names, unless_set@);
    assert(strings_view(reasons@) =~= expected);
    if reasons.len() == 0 {
        None
    } else {
        Some(join_strings(&reasons, "; "))
    }
}

/// Whether every flag is set.
pub open spec fn all_set(set: Seq<bool>) -> bool {
    forall|i: int| 0 <= i < set.len() ==> #[trigger] set[i]
}

proof fn lemma_set_names_all(names: Seq<Seq<char>>, set: Seq<bool>)
    requires
        names.len() == set.len(),
        all_set(set),
    ensures
        set_names(names, set) == names,
    decreases names.len(),
{
    if names.len() > 0 {
        let n = names.len() - 1;
        assert forall|i: int| 0 <= i < set.take(n).len() implies #[trigger] set.take(n)[i] by {
            assert(set.take(n)[i] == set[i]);
        }
        lemma_set_names_all(names.drop_last(), set.take(n));
        assert(set[n]);
        assert(names.drop_last() + seq![names.last()] =~= names);
    }
}

/// The names whose flag is set are exactly those names, in order: the `i`-th
/// name kept is the name at `pos[i]`, whose flag is set, with the positions
/// increasing, and each name whose flag is set is kept. Returns the positions.
pub proof fn law_set_names_are_the_set_ones(names: Seq<Seq<char>>, set: Seq<bool>) -> (pos: Seq<int>)
    requires
        names.len() == set.len(),
    ensures
        pos.len() == set_names(names, set).len(),
        forall|i: int|
            0 <= i < pos.len() ==> 0 <= #[trigger] pos[i] < names.len() && set[pos[i]] && set_names(names, set)[i]
                == names[pos[i]],
        forall|i: int, j: int| 0 <= i < j < pos.len() ==> #[trigger] pos[i] < #[trigger] pos[j],
        forall|k: int| 0 <= k < names.len() && #[trigger] set[k] ==> set_names(names, set).contains(names[k]),
    decreases names.len(),
{
    if names.len() == 0 {
        Seq::empty()
    } else {
        let n = names.len() - 1;
        let init = names.drop_last();
        let st = set.take(n);
        let p0 = law_set_names_are_the_set_ones(init, st);
        let s0 = set_names(init, st);
        let s1 = set_names(names, set);
        let pos = if set[n] { p0.push(n) } else { p0 };
        assert forall|i: int| 0 <= i < pos.len() implies 0 <= #[trigger] pos[i] < names.len() && set[pos[i]]
            && s1[i] == names[pos[i]] by {
            if i < p0.len() {
                assert(pos[i] == p0[i]);
                assert(s1[i] == s0[i]);
                assert(set[p0[i]] == st[p0[i]]);
                assert(names[p0[i]] == init[p0[i]]);
            }
        }
        assert forall|i: int, j: int| 0 <= i < j < pos.len() implies #[trigger] pos[i] < #[trigger] pos[j] by {
            if j < p0.len() {
                assert(pos[i] == p0[i] && pos[j] == p0[j]);
            } else {
                assert(pos[i] == p0[i]);
            }
        }
        assert forall|k: int| 0 <= k < names.len() && #[trigger] set[k] implies s1.contains(names[k]) by {
            if k < n {
                assert(st[k] == set[k] && init[k] == names[k]);
                let j = choose|j: int| 0 <= j < s0.len() && s0[j] == init[k];
                assert(s1[j] == s0[j]);
            } else {
                assert(s1[s1.len() - 1] == names[k]);
            }
        }
        pos
    }
}

/// What the reason says in the plain cases. The tests run when no
/// `ignore_if_env` variable is set and `ignore_unless_env` is empty or has a
/// variable set. With no `ignore_if_env` variable set and none of a non-empty
/// `ignore_unless_env` list set, the reason is `set A/B to run`. With every
/// one of a non-empty `ignore_if_env` list set, it is `unset A/B to run`,
/// followed by `; set C/D to run` when the `ignore_unless_env` reason holds
/// too.
pub proof fn law_ignore_reason_text(
    if_names: Seq<Seq<char>>,
    if_set: Seq<bool>,
    unless_names: Seq<Seq<char>>,
    unless_set: Seq<bool>,
)
    requires
        if_names.len() == if_set.len(),
        unless_names.len() == unless_set.len(),
    ensures
        none_set(if_set) && (unless_names.len() == 0 || !none_set(unless_set)) ==> ignore_reason(
            if_names,
            if_set,
            unless_names,
            unless_set,
        ) is None,
        none_set(if_set) && unless_names.len() > 0 && none_set(unless_set) ==> ignore_reason(
            if_names,
            if_set,
            unless_names,
            unless_set,
        ) == Some("set "@ + join(unless_names, "/"@) + " to run"@),
        if_names.len() > 0 && all_set(if_set) && (unless_names.len() == 0 || !none_set(unless_set))
            ==> ignore_reason(if_names, if_set, unless_names, unless_set) == Some(
            "unset "@ + join(if_names, "/"@) + " to run"@,
        ),
        if_names.len() > 0 && all_set(if_set) && unless_names.len() > 0 && none_set(unless_set)
            ==> ignore_reason(if_names, if_set, unless_names, unless_set) == Some(
            "unset "@ + join(if_names, "/"@) + " to run"@ + "; "@ + "set "@ + join(unless_names, "/"@)
                + " to run"@,
        ),
{
    lemma_set_names_empty(if_names, if_set);
    let r = ignore_reasons(if_names, if_set, unless_names, unless_set);
    let a = "unset "@ + join(if_names, "/"@) + " to run"@;
    let b = "set "@ + join(unless_names, "/"@) + " to run"@;
    if if_names.len() > 0 && all_set(if_set) {
        lemma_set_names_all(if_names, if_set);
        assert(if_set[0]);
        if unless_names.len() > 0 && none_set(unless_set) {
            assert(r =~= seq![a, b]);
            assert(seq![a, b].drop_last() =~= seq![a]);
            assert(join(seq![a, b], "; "@) == join(seq![a], "; "@) + "; "@ + b);
        } else {
            assert(r =~= seq![a]);
        }
    } else if none_set(if_set) {
        if unless_names.len() > 0 && none_set(unless_set) {
            assert(r =~= seq![b]);
        } else {
            assert(r =~= Seq::<Seq<char>>::empty());
        }
    }
}

} // verus!

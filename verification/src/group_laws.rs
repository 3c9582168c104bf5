//! What holds of every grouping and every search: each thing is in its group, in order, and what is picked is the first, or the
//! greatest, there is.
use vstd::prelude::*;
use crate::attribution::{keys_of, picks_under, row_of, tail_key, RouteCounts};
use crate::cli::first_present;
use crate::patching::widest_of;
use crate::specialty::routed;
use crate::stitch::inputs_from;
use crate::words::{has_prefix, has_suffix};

verus! {

/// A rule is found at its first row, and missed only where no row has it.
pub proof fn rows_are_found(rows: Seq<(String, RouteCounts)>, rule: Seq<char>, i: nat)
    requires
        i <= rows.len(),
    ensures
        match row_of(rows, rule, i) {
            Some(k) => i <= k < rows.len() && rows[k as int].0@ == rule && forall|j: int|
                i <= j < k ==> (#[trigger] rows[j]).0@ != rule,
            None => forall|j: int| i <= j < rows.len() ==> (#[trigger] rows[j]).0@ != rule,
        },
    decreases rows.len() - i,
{
    if i < rows.len() && rows[i as int].0@ != rule {
        rows_are_found(rows, rule, i + 1);
    }
}

/// A key is the end of its context; a context that is too short has blanks before it.
pub proof fn keys_are_ends(ctx: Seq<i64>, order: nat)
    ensures
        tail_key(ctx, order).len() == order,
        order <= ctx.len() ==> tail_key(ctx, order) == ctx.skip(ctx.len() - order),
        order > ctx.len() ==> tail_key(ctx, order) == Seq::new((order - ctx.len()) as nat, |i: int| -1i64) + ctx,
{
    if order <= ctx.len() {
        assert(tail_key(ctx, order) =~= ctx.skip(ctx.len() - order));
    } else {
        assert(tail_key(ctx, order) =~= Seq::new((order - ctx.len()) as nat, |i: int| -1i64) + ctx);
    }
}

/// Every context has its key among the keys, every key is that of a context, and no key comes twice.
pub proof fn keys_come_once(contexts: Seq<Vec<i64>>, order: nat, n: nat)
    requires
        n <= contexts.len(),
    ensures
        forall|j: int| 0 <= j < n ==> keys_of(contexts, order, n).contains(tail_key((#[trigger] contexts[j])@, order)),
        forall|k: int|
            0 <= k < keys_of(contexts, order, n).len() ==> exists|j: int|
                0 <= j < n && #[trigger] keys_of(contexts, order, n)[k] == tail_key((#[trigger] contexts[j])@, order),
        keys_of(contexts, order, n).no_duplicates(),
    decreases n,
{
    if n > 0 {
        let m = (n - 1) as nat;
        keys_come_once(contexts, order, m);
        let rest = keys_of(contexts, order, m);
        let all = keys_of(contexts, order, n);
        let key = tail_key(contexts[m as int]@, order);
        if !rest.contains(key) {
            assert(all == rest.push(key));
            assert(all[rest.len() as int] == key);
            assert forall|j: int| 0 <= j < n implies all.contains(tail_key((#[trigger] contexts[j])@, order)) by {
                if j < m {
                    let t = tail_key(contexts[j]@, order);
                    let k = choose|k: int| 0 <= k < rest.len() && rest[k] == t;
                    assert(all[k] == t);
                }
            }
            assert forall|k: int| 0 <= k < all.len() implies exists|j: int|
                0 <= j < n && #[trigger] all[k] == tail_key((#[trigger] contexts[j])@, order) by {
                if k < rest.len() {
                    let j = choose|j: int| 0 <= j < m && rest[k] == tail_key((#[trigger] contexts[j])@, order);
                    assert(all[k] == tail_key(contexts[j]@, order));
                } else {
                    assert(all[k] == tail_key(contexts[m as int]@, order));
                }
            }
        }
    }
}

/// The places below `n`.
pub open spec fn places(n: nat) -> Seq<int> {
    Seq::new(n, |i: int| i)
}

/// A bucket holds the decision behind each context that has its key, in their order.
pub proof fn buckets_are_filtered(contexts: Seq<Vec<i64>>, picks: Seq<i64>, order: nat, key: Seq<i64>, n: nat)
    ensures
        picks_under(contexts, picks, order, key, n) == places(n).filter(
            |j: int| tail_key(contexts[j]@, order) == key,
        ).map_values(|j: int| picks[j]),
    decreases n,
{
    let has = |j: int| tail_key(contexts[j]@, order) == key;
    let pick = |j: int| picks[j];
    reveal(Seq::filter);
    if n > 0 {
        let m = (n - 1) as nat;
        buckets_are_filtered(contexts, picks, order, key, m);
        assert(places(n).drop_last() =~= places(m));
        let kept = places(m).filter(has);
        if has(n - 1) {
            assert(places(n).filter(has) == kept.push(n - 1));
            assert(kept.push(n - 1).map_values(pick) =~= kept.map_values(pick).push(picks[n - 1]));
        }
    } else {
        assert(places(0).filter(has).map_values(pick) =~= Seq::<i64>::empty());
    }
}

/// An expert has the decisions that are routed to it, in their order.
pub proof fn experts_are_filtered(routes: Seq<usize>, decided: Seq<i64>, n: nat, e: int)
    ensures
        routed(routes, decided, n, e) == places(n).filter(|j: int| routes[j] == e).map_values(|j: int| decided[j]),
    decreases n,
{
    let has = |j: int| routes[j] == e;
    let pick = |j: int| decided[j];
    reveal(Seq::filter);
    if n > 0 {
        let m = (n - 1) as nat;
        experts_are_filtered(routes, decided, m, e);
        assert(places(n).drop_last() =~= places(m));
        let kept = places(m).filter(has);
        if has(n - 1) {
            assert(places(n).filter(has) == kept.push(n - 1));
            assert(kept.push(n - 1).map_values(pick) =~= kept.map_values(pick).push(decided[n - 1]));
        }
    } else {
        assert(places(0).filter(has).map_values(pick) =~= Seq::<i64>::empty());
    }
}

/// Arguments that are no flags are all inputs, in order; those that end in `.dl` are programs.
pub proof fn plain_arguments_are_inputs(args: Seq<String>, i: nat)
    requires
        i <= args.len(),
        forall|j: int| i <= j < args.len() ==> !has_prefix((#[trigger] args[j])@, seq!['-']),
    ensures
        inputs_from(args, i).len() == args.len() - i,
        forall|j: int|
            i <= j < args.len() ==> inputs_from(args, i)[j - i] == (
                has_suffix((#[trigger] args[j])@, seq!['.', 'd', 'l']),
                args[j]@,
            ),
    decreases args.len() - i,
{
    reveal_strlit("-");
    reveal_strlit("-o");
    reveal_strlit("--out");
    reveal_strlit(".dl");
    assert("-"@ =~= seq!['-']);
    assert(".dl"@ =~= seq!['.', 'd', 'l']);
    if i < args.len() {
        let a = args[i as int]@;
        assert("-o"@.take(1) =~= "-"@ && "--out"@.take(1) =~= "-"@);
        assert(a != "-o"@ && a != "--out"@);
        plain_arguments_are_inputs(args, i + 1);
        let rest = inputs_from(args, i + 1);
        let all = inputs_from(args, i);
        assert(all == seq![(has_suffix(a, ".dl"@), a)] + rest);
        assert forall|j: int| i <= j < args.len() implies all[j - i] == (
            has_suffix((#[trigger] args[j])@, seq!['.', 'd', 'l']),
            args[j]@,
        ) by {
            if j > i {
                assert(all[j - i] == rest[j - (i + 1)]);
            }
        }
    }
}

/// A flag is no input, and neither is the place for the output behind the flag that names it.
pub proof fn flags_are_no_inputs(args: Seq<String>, i: nat)
    requires
        i < args.len(),
        has_prefix(args[i as int]@, seq!['-']),
    ensures
        ({
            let a = args[i as int]@;
            let names_output = a == seq!['-', 'o'] || a == seq!['-', '-', 'o', 'u', 't'];
            inputs_from(args, i) == inputs_from(args, if names_output { i + 2 } else { i + 1 })
        }),
{
    reveal_strlit("-");
    reveal_strlit("-o");
    reveal_strlit("--out");
    assert("-"@ =~= seq!['-']);
    assert("-o"@ =~= seq!['-', 'o']);
    assert("--out"@ =~= seq!['-', '-', 'o', 'u', 't']);
}

/// No layer is longer than the widest, and one of them is as long.
pub proof fn widest_layer_is_one<T>(layers: Seq<Vec<T>>, n: nat)
    requires
        n <= layers.len(),
    ensures
        forall|i: int| 0 <= i < n ==> (#[trigger] layers[i])@.len() <= widest_of(layers, n),
        n > 0 ==> exists|i: int| 0 <= i < n && (#[trigger] layers[i])@.len() == widest_of(layers, n),
        n == 0 ==> widest_of(layers, n) == 0,
    decreases n,
{
    if n > 0 {
        let m = (n - 1) as nat;
        widest_layer_is_one(layers, m);
        assert(layers[m as int]@.len() <= widest_of(layers, n));
        if m > 0 && layers[m as int]@.len() <= widest_of(layers, m) {
            let i = choose|i: int| 0 <= i < m && (#[trigger] layers[i])@.len() == widest_of(layers, m);
            assert(layers[i]@.len() == widest_of(layers, n));
        } else {
            assert(layers[m as int]@.len() == widest_of(layers, n));
        }
    }
}

/// The first place with a bundle is taken, and none only where there is no bundle.
pub proof fn first_bundle_is_taken(present: Seq<bool>, i: nat)
    requires
        i <= present.len(),
    ensures
        match first_present(present, i) {
            Some(k) => i <= k < present.len() && present[k as int] && forall|j: int| i <= j < k ==> !#[trigger] present[j],
            None => forall|j: int| i <= j < present.len() ==> !#[trigger] present[j],
        },
    decreases present.len() - i,
{
    if i < present.len() && !present[i as int] {
        first_bundle_is_taken(present, i + 1);
    }
}

} // verus!

//! What holds of every trace, every reading and every argument: which of the given things each of them is.
use vstd::prelude::*;
use crate::attribution::covered_of;
use crate::cli::{flag_from, flag_value, last_segment, model_name};
use crate::facts::tokens_of;
use crate::kernel::{applied_patches, of_layer};
use crate::model::{binding, late_layers, looked_back, readings, resolved_from, traces, RecPos};
use crate::patching::{differences, laid_out, list_numbers};
use crate::probe_laws::numeral_is_read_back;
use crate::text::{dec, is_digit, position, position_is_first, unsigned_part, usize_value};
use crate::text_laws::is_free_of;
use crate::value_flow::{held, times, Reading};

verus! {

// ---- Traces.

proof fn resolved_is_first(lens: Seq<Vec<i64>>, p: int, token: i64, l: nat)
    requires
        l < lens.len(),
        lens[lens.len() - 1]@[p] == token,
    ensures
        ({
            let r = resolved_from(lens, p, token, l);
            &&& l < r <= lens.len()
            &&& lens[r - 1]@[p] == token
            &&& forall|k: int| l <= k < r - 1 ==> (#[trigger] lens[k])@[p] != token
        }),
    decreases lens.len() - l,
{
    if lens[l as int]@[p] != token {
        resolved_is_first(lens, p, token, l + 1);
        assert forall|k: int| l <= k < resolved_from(lens, p, token, l) - 1 implies (#[trigger] lens[k])@[p] != token by {
            if k > l {
                assert(l + 1 <= k);
            }
        }
    }
}

/// A position is resolved at the first layer that reads what the last one reads, counted from one.
pub proof fn resolution_is_the_first_reading(r: RecPos, lens: Seq<Vec<i64>>, weights: Seq<Vec<u32>>, late0: nat, p: int)
    requires
        lens.len() > 0,
        traces(r, lens, weights, late0, p),
    ensures
        1 <= r.resolve_layer <= lens.len(),
        lens[r.resolve_layer - 1]@[p] == lens[lens.len() - 1]@[p],
        forall|k: int| 0 <= k < r.resolve_layer - 1 ==> (#[trigger] lens[k])@[p] != lens[lens.len() - 1]@[p],
{
    resolved_is_first(lens, p, r.final_top1, 0);
}

/// The readings of all layers are numbered from one, and those of the late layers are the last of them.
pub proof fn late_readings_are_the_last(r: RecPos, lens: Seq<Vec<i64>>, weights: Seq<Vec<u32>>, late0: nat, p: int)
    requires
        lens.len() <= usize::MAX,
        late0 <= lens.len(),
        traces(r, lens, weights, late0, p),
    ensures
        r.lens_full@.len() == lens.len(),
        forall|l: int| 0 <= l < lens.len() ==> (#[trigger] r.lens_full@[l]) == ((l + 1) as usize, lens[l]@[p]),
        r.lens_late@ == r.lens_full@.skip(late0 as int),
{
    assert(r.lens_late@ =~= r.lens_full@.skip(late0 as int));
}

proof fn back_is_greatest(weights: Seq<u32>, p: usize, n: nat)
    requires
        n <= usize::MAX,
    ensures
        ({
            let (back, conc) = looked_back(weights, p, n);
            &&& forall|k: int| 2 <= k < n ==> #[trigger] weights[k] <= conc
            &&& conc == 0 ==> back == p
            &&& conc > 0 ==> 2 <= back < n && weights[back as int] == conc && forall|k: int|
                2 <= k < back ==> #[trigger] weights[k] < conc
        }),
    decreases n,
{
    if n > 0 {
        back_is_greatest(weights, p, (n - 1) as nat);
        let (back, conc) = looked_back(weights, p, n);
        assert forall|k: int| 2 <= k < n implies #[trigger] weights[k] <= conc by {
            if k == n - 1 {
                assert(binding(weights, n - 1) == weights[n - 1]);
            }
        }
    }
}

/// A position looks back at the earlier position that it looks at most, the first of those that are alike. The first two
/// positions do not count; where nothing else is looked at, it looks at itself.
pub proof fn strongest_look_is_traced(r: RecPos, lens: Seq<Vec<i64>>, weights: Seq<Vec<u32>>, late0: nat, p: int)
    requires
        0 <= p,
        traces(r, lens, weights, late0, p),
    ensures
        forall|k: int| 2 <= k < p ==> #[trigger] weights[p]@[k] <= r.conc,
        r.conc == 0 ==> r.back == p,
        r.conc > 0 ==> 2 <= r.back < p && weights[p]@[r.back as int] == r.conc && forall|k: int|
            2 <= k < r.back ==> #[trigger] weights[p]@[k] < r.conc,
{
    back_is_greatest(weights[p]@, r.pos, p as nat);
}

/// The layers that are read late at a position are those that have it, from the first late one on, in order.
pub proof fn late_layers_have_the_position(rows: Seq<usize>, p: usize, l: nat)
    requires
        rows.len() <= usize::MAX,
    ensures
        forall|k: usize| #[trigger] late_layers(rows, p, l).contains(k) <==> l <= k < rows.len() && p < rows[k as int],
        forall|i: int, j: int|
            0 <= i < j < late_layers(rows, p, l).len() ==> late_layers(rows, p, l)[i] < late_layers(rows, p, l)[j],
    decreases rows.len() - l,
{
    let all = late_layers(rows, p, l);
    if l < rows.len() {
        late_layers_have_the_position(rows, p, l + 1);
        let rest = late_layers(rows, p, l + 1);
        if p < rows[l as int] {
            assert(all == seq![l as usize] + rest);
            assert forall|k: usize| #[trigger] all.contains(k) <==> l <= k < rows.len() && p < rows[k as int] by {
                if all.contains(k) {
                    let i = choose|i: int| 0 <= i < all.len() && all[i] == k;
                    if i > 0 {
                        assert(rest[i - 1] == k);
                        assert(rest.contains(k));
                    }
                }
                if l <= k < rows.len() && p < rows[k as int] {
                    if k == l {
                        assert(all[0] == k);
                    } else {
                        assert(rest.contains(k));
                        let i = choose|i: int| 0 <= i < rest.len() && rest[i] == k;
                        assert(all[i + 1] == k);
                    }
                }
            }
            assert forall|i: int, j: int| 0 <= i < j < all.len() implies all[i] < all[j] by {
                assert(all[j] == rest[j - 1]);
                assert(rest.contains(rest[j - 1]));
                if i > 0 {
                    assert(all[i] == rest[i - 1]);
                }
            }
        }
    }
}

// ---- Readings.

/// Numbers that are held at two runs of readings behind one another are those of the first, then those of the second. A
/// reading holds its number, unless it has none or foretells the token that follows.
pub proof fn held_numbers_add_up(a: Seq<Reading>, b: Seq<Reading>, r: Reading, next: Option<i64>)
    ensures
        held(a + b, next) == held(a, next) + held(b, next),
        r.value is None || next == Some(r.token) ==> held(seq![r], next).len() == 0,
        r.value is Some && next != Some(r.token) ==> held(seq![r], next) == seq![r.value->0],
    decreases b.len(),
{
    reveal_with_fuel(held, 2);
    assert(seq![r].drop_last() =~= Seq::empty());
    if b.len() == 0 {
        assert(a + b =~= a);
        assert(held(a, next) + held(b, next) =~= held(a, next));
    } else {
        assert((a + b).drop_last() =~= a + b.drop_last());
        assert((a + b).last() == b.last());
        held_numbers_add_up(a, b.drop_last(), r, next);
        let h = held(a, next);
        let t = held(b.drop_last(), next);
        if let Some(v) = b.last().value {
            assert((h + t).push(v) =~= h + t.push(v));
        }
    }
}

/// Occurrences add up; a number occurs once in itself, and not in another.
pub proof fn occurrences_add_up(a: Seq<i64>, b: Seq<i64>, x: i64, v: i64)
    ensures
        times(a + b, v) == times(a, v) + times(b, v),
        times(seq![x], v) == (if x == v { 1nat } else { 0 }),
    decreases b.len(),
{
    reveal_with_fuel(times, 2);
    assert(seq![x].drop_last() =~= Seq::empty());
    if b.len() == 0 {
        assert(a + b =~= a);
    } else {
        assert((a + b).drop_last() =~= a + b.drop_last());
        occurrences_add_up(a, b.drop_last(), x, v);
    }
}

/// Coverage adds up over two runs of decisions. A set counts with its size, and once more where it holds its decision.
pub proof fn coverage_adds_up(cands: Seq<Vec<i64>>, decided: Seq<i64>, n: nat, m: nat)
    requires
        n + m <= cands.len(),
        n + m <= decided.len(),
    ensures
        covered_of(cands, decided, n + m).0 == covered_of(cands, decided, n).0 + covered_of(
            cands.skip(n as int),
            decided.skip(n as int),
            m,
        ).0,
        covered_of(cands, decided, n + m).1 == covered_of(cands, decided, n).1 + covered_of(
            cands.skip(n as int),
            decided.skip(n as int),
            m,
        ).1,
        covered_of(cands, decided, n).1 <= n,
        covered_of(cands, decided, n).1 == n <==> forall|i: int| 0 <= i < n ==> (#[trigger] cands[i])@.contains(decided[i]),
    decreases n + m,
{
    if m > 0 {
        coverage_adds_up(cands, decided, n, (m - 1) as nat);
        assert(cands.skip(n as int)[m - 1] == cands[n + m - 1]);
        assert(decided.skip(n as int)[m - 1] == decided[n + m - 1]);
    } else if n > 0 {
        coverage_adds_up(cands, decided, (n - 1) as nat, 0);
    }
}

/// The tokens of a step are taken from the list in order: those of the step, and no others.
pub proof fn step_tokens_keep_order(
    a: Seq<(i64, i64)>,
    b: Seq<(i64, i64)>,
    one: (i64, i64),
    step: i64,
)
    ensures
        tokens_of(a + b, step) == tokens_of(a, step) + tokens_of(b, step),
        tokens_of(seq![one], step) == (if one.0 == step { seq![one.1] } else { Seq::empty() }),
    decreases b.len(),
{
    reveal_with_fuel(tokens_of, 2);
    assert(seq![one].drop_last() =~= Seq::empty());
    assert(one.0 == step ==> Seq::<i64>::empty().push(one.1) =~= seq![one.1]);
    if b.len() == 0 {
        assert(a + b =~= a);
        assert(tokens_of(a, step) + tokens_of(b, step) =~= tokens_of(a, step));
    } else {
        assert((a + b).drop_last() =~= a + b.drop_last());
        assert((a + b).last() == b.last());
        step_tokens_keep_order(a, b.drop_last(), one, step);
        let h = tokens_of(a, step);
        let t = tokens_of(b.drop_last(), step);
        assert((h + t).push(b.last().1) =~= h + t.push(b.last().1));
    }
}

/// What is switched off in a layer is taken from the list in order: the entries of the layer, and no others.
pub proof fn ablations_keep_order(a: Seq<(usize, usize)>, b: Seq<(usize, usize)>, one: (usize, usize), l: usize)
    ensures
        of_layer(a + b, l) == of_layer(a, l) + of_layer(b, l),
        of_layer(seq![one], l) == (if one.0 == l { seq![one.1] } else { Seq::empty() }),
    decreases b.len(),
{
    reveal_with_fuel(of_layer, 2);
    assert(seq![one].drop_last() =~= Seq::empty());
    assert(one.0 == l ==> Seq::<usize>::empty().push(one.1) =~= seq![one.1]);
    if b.len() == 0 {
        assert(a + b =~= a);
        assert(of_layer(a, l) + of_layer(b, l) =~= of_layer(a, l));
    } else {
        assert((a + b).drop_last() =~= a + b.drop_last());
        assert((a + b).last() == b.last());
        ablations_keep_order(a, b.drop_last(), one, l);
        let h = of_layer(a, l);
        let t = of_layer(b.drop_last(), l);
        assert((h + t).push(b.last().1) =~= h + t.push(b.last().1));
    }
}

/// A patch applies exactly where its position is in the text and its donor has the width of the model.
pub proof fn fitting_patches_apply(positions: Seq<usize>, donor_lens: Seq<usize>, seq: nat, width: nat, n: nat, i: usize)
    requires
        n <= usize::MAX,
    ensures
        forall|q: usize|
            #[trigger] applied_patches(positions, donor_lens, seq, width, n).contains((q, i)) <==> i < n && q == positions[i as int]
                && q < seq && donor_lens[i as int] == width,
    decreases n,
{
    let all = applied_patches(positions, donor_lens, seq, width, n);
    if n > 0 {
        let rest = applied_patches(positions, donor_lens, seq, width, (n - 1) as nat);
        fitting_patches_apply(positions, donor_lens, seq, width, (n - 1) as nat, i);
        let last = (positions[n - 1], (n - 1) as usize);
        assert forall|q: usize| #[trigger] all.contains((q, i)) <==> i < n && q == positions[i as int] && q < seq
            && donor_lens[i as int] == width by {
            if all.contains((q, i)) {
                let k = choose|k: int| 0 <= k < all.len() && all[k] == (q, i);
                if k < rest.len() {
                    assert(rest[k] == (q, i));
                    assert(rest.contains((q, i)));
                }
            }
            if i < n && q == positions[i as int] && q < seq && donor_lens[i as int] == width {
                if i == n - 1 {
                    assert(all == rest.push(last));
                    assert(all[rest.len() as int] == (q, i));
                } else {
                    assert(rest.contains((q, i)));
                    let k = choose|k: int| 0 <= k < rest.len() && rest[k] == (q, i);
                    assert(all[k] == (q, i));
                }
            }
        }
    }
}

/// The differences of two runs are the positions at which they differ, in order.
pub proof fn differences_are_found(a: Seq<i64>, b: Seq<i64>, n: nat)
    requires
        n <= usize::MAX,
    ensures
        forall|p: usize| #[trigger] differences(a, b, n).contains(p) <==> p < n && a[p as int] != b[p as int],
        forall|i: int, j: int| 0 <= i < j < differences(a, b, n).len() ==> differences(a, b, n)[i] < differences(a, b, n)[j],
    decreases n,
{
    let all = differences(a, b, n);
    if n > 0 {
        let rest = differences(a, b, (n - 1) as nat);
        differences_are_found(a, b, (n - 1) as nat);
        assert forall|i: int| 0 <= i < rest.len() implies #[trigger] rest[i] < n - 1 by {
            assert(rest.contains(rest[i]));
        }
        assert forall|p: usize| #[trigger] all.contains(p) <==> p < n && a[p as int] != b[p as int] by {
            if all.contains(p) {
                let k = choose|k: int| 0 <= k < all.len() && all[k] == p;
                if k < rest.len() {
                    assert(rest[k] == p);
                    assert(rest.contains(p));
                }
            }
            if p < n && a[p as int] != b[p as int] {
                if p == n - 1 {
                    assert(all[rest.len() as int] == p);
                } else {
                    assert(rest.contains(p));
                    let k = choose|k: int| 0 <= k < rest.len() && rest[k] == p;
                    assert(all[k] == p);
                }
            }
        }
    }
}

/// The layers of a sample stand one behind the other, each as wide as the model; one of another width counts as zeros.
pub proof fn layers_are_laid_out<T>(layers: Seq<Vec<T>>, width: nat, zero: T, n: nat, l: nat, i: nat)
    requires
        l < n <= layers.len(),
        i < width,
    ensures
        laid_out(layers, width, zero, n).len() == n * width,
        l * width + i < n * width,
        laid_out(layers, width, zero, n)[(l * width + i) as int] == (if layers[l as int]@.len() == width {
            layers[l as int]@[i as int]
        } else {
            zero
        }),
    decreases n,
{
    let k = (n - 1) as nat;
    laid_out_len(layers, width, zero, k);
    laid_out_len(layers, width, zero, n);
    assert(n * width == k * width + width) by (nonlinear_arith)
        requires
            n == k + 1,
    ;
    if l < k {
        layers_are_laid_out(layers, width, zero, k, l, i);
    }
}

proof fn laid_out_len<T>(layers: Seq<Vec<T>>, width: nat, zero: T, n: nat)
    requires
        n <= layers.len(),
    ensures
        laid_out(layers, width, zero, n).len() == n * width,
    decreases n,
{
    if n > 0 {
        laid_out_len(layers, width, zero, (n - 1) as nat);
        assert(n * width == (n - 1) * width + width) by (nonlinear_arith)
            requires
                n > 0,
        ;
    } else {
        assert(n * width == 0) by (nonlinear_arith)
            requires
                n == 0,
        ;
    }
}

// ---- Arguments.

proof fn flag_is_found(args: Seq<String>, name: Seq<char>, i: nat, k: nat)
    requires
        i <= k < args.len(),
        args[k as int]@ == name,
        forall|j: int| i <= j < k ==> (#[trigger] args[j])@ != name,
    ensures
        flag_from(args, name, i) == Some(k),
    decreases k - i,
{
    if i < k {
        assert(args[i as int]@ != name);
        flag_is_found(args, name, i + 1, k);
    }
}

proof fn flag_is_missing(args: Seq<String>, name: Seq<char>, i: nat)
    requires
        forall|j: int| i <= j < args.len() ==> (#[trigger] args[j])@ != name,
    ensures
        flag_from(args, name, i) is None,
    decreases args.len() - i,
{
    if i < args.len() {
        assert(args[i as int]@ != name);
        flag_is_missing(args, name, i + 1);
    }
}

/// A flag has the argument behind its first occurrence for its value; it has none where nothing follows.
pub proof fn first_flag_has_the_value(args: Seq<String>, name: Seq<char>, k: nat)
    requires
        k < args.len(),
        args[k as int]@ == name,
        forall|j: int| 0 <= j < k ==> (#[trigger] args[j])@ != name,
    ensures
        k + 1 < args.len() ==> flag_value(args, name) == Some(args[(k + 1) as int]@),
        k + 1 == args.len() ==> flag_value(args, name) is None,
{
    flag_is_found(args, name, 0, k);
}

/// A flag that is not given has no value.
pub proof fn missing_flag_has_no_value(args: Seq<String>, name: Seq<char>)
    requires
        forall|j: int| 0 <= j < args.len() ==> (#[trigger] args[j])@ != name,
    ensures
        flag_value(args, name) is None,
{
    flag_is_missing(args, name, 0);
}

proof fn segment_is_last(a: Seq<char>, b: Seq<char>)
    requires
        is_free_of(b, '/'),
    ensures
        last_segment(a + seq!['/'] + b) == b,
        last_segment(b) == b,
    decreases a.len(),
{
    let s = a + seq!['/'] + b;
    position_is_first(s, '/');
    position_is_first(b, '/');
    assert(s[a.len() as int] == '/');
    if let Some(k) = position(b, '/') {
        assert(b[k] == '/');
    }
    assert(last_segment(b) == b);
    let k = position(s, '/')->0;
    if k < a.len() {
        segment_is_last(a.skip(k + 1), b);
        assert(s.skip(k + 1) =~= a.skip(k + 1) + seq!['/'] + b);
    } else {
        assert(s.skip(k + 1) =~= b);
        assert(last_segment(s) == last_segment(s.skip(k + 1)));
    }
}

/// The name of a model is what stands behind the last slash of its path, up to the revision, if there is one.
pub proof fn models_are_named(path: Seq<char>, name: Seq<char>, revision: Seq<char>)
    requires
        is_free_of(name, '/'),
        is_free_of(name, '@'),
        is_free_of(revision, '/'),
    ensures
        model_name(name) == name,
        model_name(path + seq!['/'] + name) == name,
        model_name(path + seq!['/'] + (name + seq!['@'] + revision)) == name,
{
    let full = name + seq!['@'] + revision;
    assert(is_free_of(full, '/')) by {
        assert forall|i: int| 0 <= i < full.len() implies #[trigger] full[i] != '/' by {
            if i < name.len() {
                assert(full[i] == name[i]);
            } else if i > name.len() {
                assert(full[i] == revision[i - name.len() - 1]);
            }
        }
    }
    segment_is_last(path, name);
    segment_is_last(path, full);
    position_is_first(name, '@');
    position_is_first(full, '@');
    if let Some(k) = position(name, '@') {
        assert(name[k] == '@');
    }
    assert(full[name.len() as int] == '@');
    let k = position(full, '@')->0;
    if k < name.len() {
        assert(full[k] == name[k]);
    }
    assert(full.take(name.len() as int) =~= name);
}

proof fn entry_is_read(d: Seq<char>, num: Seq<char>, rest: Seq<char>)
    requires
        is_free_of(d, ','),
        rest.len() > 0 ==> rest[0] == ',',
    ensures
        list_numbers(d + rest, num) == list_numbers(rest, num + d),
    decreases d.len(),
{
    let s = d + rest;
    if d.len() == 0 {
        assert(s =~= rest);
        assert(num + d =~= num);
    } else {
        let t = d.skip(1);
        assert(d[0] != ',');
        assert forall|i: int| 0 <= i < t.len() implies #[trigger] t[i] != ',' by {
            assert(t[i] == d[i + 1]);
        }
        entry_is_read(t, num.push(d[0]), rest);
        assert(s.skip(1) =~= t + rest);
        assert(num.push(d[0]) + t =~= num + d);
    }
}

/// A number in a list with commas is read, and those behind the next comma follow.
pub proof fn listed_numbers_are_read(v: usize, rest: Seq<char>)
    ensures
        list_numbers(dec(v as nat) + seq![','] + rest, Seq::empty()) == seq![v] + list_numbers(rest, Seq::empty()),
        list_numbers(dec(v as nat), Seq::empty()) == seq![v],
{
    let d = dec(v as nat);
    numeral_is_read_back(v as nat);
    assert forall|i: int| 0 <= i < d.len() implies #[trigger] d[i] != ',' by {
        assert(is_digit(d[i]));
    }
    assert(is_digit(d[0]));
    assert(unsigned_part(d) == d);
    assert(usize_value(d) == Some(v));
    let tail = seq![','] + rest;
    assert(d + seq![','] + rest =~= d + tail);
    entry_is_read(d, Seq::empty(), tail);
    entry_is_read(d, Seq::empty(), Seq::empty());
    assert(Seq::<char>::empty() + d =~= d);
    assert(d + Seq::<char>::empty() =~= d);
    assert(tail.skip(1) =~= rest);
}

} // verus!

use fieldrun::kernel::{
    ablated_in, block_labels, cache_cell, cache_scale, expert_tensor, kv_head, label_of, late0, layer_tensor,
    minimax_shape, mla_shape, neox_shape, patches, quant_levels, qwen35moe_shape, qwen3moe_shape, rope_shape,
    stream_plan, unembed_name, visible, write_of, Write,
};
use fieldrun::routing::{by_expert, group_limited_top_k, kept_experts, last_greatest, ordered, top_k, top_of};

#[test]
fn configurations_of_the_dense_architectures() {
    let r = rope_shape(&[24, 14, 2, 64, 896, 4864, 151936, 1]);
    assert_eq!((r.heads.n_layer, r.heads.heads, r.heads.kv_heads, r.heads.head_dim, r.tied), (24, 14, 2, 64, true));
    let n = neox_shape(&[6, 8, 64, 512, 2048, 50304, 16, 0]);
    assert_eq!((n.n_layer, n.heads, n.head_dim, n.rotated, n.parallel), (6, 8, 64, 16, false));
}

#[test]
fn configurations_of_the_sparse_architectures() {
    let m = minimax_shape(&[62, 48, 8, 128, 3072, 200064, 0, 256, 8]);
    assert_eq!((m.heads.kv_heads, m.tied, m.experts, m.top_k), (8, false, 256, 8));
    let mut config = vec![2, 32, 4, 128, 2048, 6144, 151936, 0, 128, 8, 768, 1, 1, 0];
    let q = qwen3moe_shape(&config);
    assert_eq!((q.width, q.experts, q.top_k, q.expert_size, q.norm_top_k), (2048, 128, 8, 768, true));
    assert_eq!((q.has_experts, q.window), (vec![true, false], 0));
    config.push(4096);
    assert_eq!(qwen3moe_shape(&config).window, 4096);
    let s = qwen35moe_shape(&[2, 16, 2, 256, 2048, 248320, 0, 256, 8, 512, 513, 1, 32, 16, 128, 129, 4, 1, 0]);
    assert_eq!((s.shared_size, s.value_heads, s.key_heads, s.key_dim, s.value_dim, s.conv_len), (513, 32, 16, 128, 129, 4));
    assert_eq!(s.linear, vec![true, false]);
    let l = mla_shape(&[27, 16, 2048, 0, 512, 128, 64, 127, 102400, 0, 64, 2, 6, 1408, 1, 2, 1, 3]);
    assert_eq!((l.q_latent, l.kv_latent, l.key_plain, l.key_rotated, l.value_dim), (0, 512, 128, 64, 127));
    assert_eq!((l.experts, l.top_k, l.groups, l.top_groups, l.norm_top_k, l.dense_layers), (64, 6, 1, 2, true, 3));
}

#[test]
fn positions_see_what_lies_before_them() {
    assert!(visible(5, 5, 0) && visible(5, 0, 0) && !visible(5, 6, 0));
    assert!(visible(5, 3, 3) && !visible(5, 2, 3));
}

#[test]
fn query_heads_share_keys_and_values() {
    assert_eq!((0..6).map(|h| kv_head(h, 6, 2)).collect::<Vec<_>>(), vec![0, 0, 0, 1, 1, 1]);
}

#[test]
fn cells_of_a_cache() {
    assert_eq!(cache_cell(2, 1, 3, 4, 8, 5), 2 * 32 + 8 + 3);
    assert_eq!(cache_scale(2, 1, 4, 5), 9);
    let mut seen = std::collections::HashSet::new();
    for p in 0..3 {
        for h in 0..2 {
            for c in 0..4 {
                assert!(seen.insert(cache_cell(p, h, c, 2, 4, 3)));
            }
        }
    }
    assert_eq!(seen.len(), 24);
}

#[test]
fn writes_into_the_residual() {
    assert_eq!(late0(24), 16);
    assert_eq!(block_labels(2), vec!["embed", "L0.attn", "L0.mlp", "L1.attn", "L1.mlp"]);
    assert!(write_of(3, 2) == Some(Write::Attn(1)));
    assert!(write_of(5, 2) == None);
    assert_eq!(label_of(Write::Mlp(7)), "L7.mlp");
}

#[test]
fn names_of_tensors() {
    assert_eq!(layer_tensor(3, "q_w"), "l3.q_w");
    assert_eq!(expert_tensor(3, 12, "up_w"), "l3.experts.12.up_w");
    assert_eq!((unembed_name(true), unembed_name(false)), ("embed", "lm_head"));
}

#[test]
fn interventions_on_a_forward_pass() {
    assert_eq!(ablated_in(&[(0, 3), (1, 4), (0, 5)], 0), vec![3, 5]);
    assert_eq!(patches(&[1, 9, 2], &[8, 8, 7], 5, 8), vec![(1, 0)]);
    assert_eq!((quant_levels(8), quant_levels(4), quant_levels(1), quant_levels(31)), (127, 7, 0, 1073741823));
    assert_eq!((stream_plan(0), stream_plan(1), stream_plan(6)), ((0, 1), (0, 1), (5, 6)));
}

#[test]
fn the_last_of_the_greatest_wins() {
    assert_eq!(last_greatest(&[3, 9, 1, 9]), 3);
    assert_eq!(last_greatest(&[-5]), 0);
}

#[test]
fn experts_are_picked_by_their_keys() {
    assert_eq!(ordered(&[0, 2, 3], &[5, 9, 5, 7]), vec![3, 0, 2]);
    assert_eq!(top_of(&[0, 2, 3], &[5, 9, 5, 7], 2), vec![3, 0]);
    assert_eq!(top_k(&[5, 9, 5, 7], 3), vec![1, 3, 0]);
    assert_eq!(top_k(&[5], 3), vec![0]);
}

#[test]
fn experts_are_picked_from_kept_groups() {
    assert_eq!(kept_experts(&[2, 0], 2, 6), vec![0, 1, 4, 5]);
    // Expert 2 has the greatest key, but its group is not kept.
    assert_eq!(group_limited_top_k(&[1, 2, 99, 0, 5, 4], &[3, 1, 9], 2, 2, 3), vec![4, 5, 1]);
}

#[test]
fn every_expert_runs_its_tokens() {
    let v = by_expert(&[vec![0, 2], vec![2], vec![1, 0]], 4);
    assert_eq!(v, vec![vec![0, 2], vec![2], vec![0, 1], vec![]]);
}

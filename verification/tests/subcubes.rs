use cubes::subcubes::{Block, Demo, MiningTarget, CUT_SIDES, TOOLS, TOOL_35, TOOL_6};

fn volume(blocks: &[Block]) -> i64 {
    blocks.iter().map(|b| (b.side as i64).pow(3)).sum()
}

#[test]
fn tool6_c1_preview_keeps_seven_halves_and_only_collects_target_half() {
    for material in 0..6 {
        for x in 0..2 {
            for y in 0..2 {
                for z in 0..2 {
                    let parent = Block { min: [-24; 3], side: 24, material };
                    let half = Block { min: [-24 + x * 12, -24 + y * 12, -24 + z * 12], side: 12, material };
                    let target = MiningTarget { parent, cut: Block { min: half.min, side: 3, material } };
                    let mut demo = Demo { blocks: vec![parent], tool: TOOL_6 };
                    let preview = demo.preview_blocks(Some(target));
                    assert_eq!(preview.len(), 70);
                    let retained: Vec<_> = preview.iter().copied().filter(|b| b.side == 12).collect();
                    assert_eq!(retained.len(), 7);
                    assert!(!retained.contains(&half));
                    assert_eq!(preview.iter().filter(|b| b.side == 3).count(), 63);
                    assert_eq!(demo.blocks, [parent]);
                    demo.mine(target);
                    assert_eq!(demo.blocks, preview);
                }
            }
        }
    }
}

#[test]
fn corner_cuts_of_every_tool_keep_volume_and_mining_twice_changes_nothing() {
    let pieces = [63, 14, 14, 14, 70, 7];
    for (tool, side) in TOOLS.into_iter().enumerate() {
        let parent = Block { min: [-side; 3], side, material: 5 };
        let cut_side = if tool == TOOL_35 { 72 } else { CUT_SIDES[tool] };
        let cut = Block { min: parent.min, side: cut_side, material: 5 };
        let target = MiningTarget { parent, cut };
        let mut d = Demo { blocks: vec![parent], tool };
        let preview = d.preview_blocks(Some(target));
        assert_eq!(d.blocks, [parent]);
        assert_eq!(preview.len(), pieces[tool]);
        assert_eq!(volume(&preview) + (cut_side as i64).pow(3), (side as i64).pow(3));
        assert!(preview.iter().all(|b| b.material == 5 && *b != cut));
        d.mine(target);
        assert_eq!(d.blocks, preview);
        let after = d.blocks.clone();
        d.mine(target);
        assert_eq!(d.blocks, after);
    }
}

#[test]
fn stale_targets_from_another_tool_or_misaligned_cuts_are_rejected() {
    let parent = Block { min: [0; 3], side: 24, material: 1 };
    let target = MiningTarget { parent, cut: Block { min: [0; 3], side: 3, material: 1 } };
    let mut d = Demo { blocks: vec![parent], tool: 3 };
    d.mine(target);
    assert_eq!(d.blocks, [parent]);
    let mut d = Demo { blocks: vec![parent], tool: TOOL_6 };
    let misaligned = MiningTarget { parent, cut: Block { min: [1, 0, 0], side: 3, material: 1 } };
    d.mine(misaligned);
    assert_eq!(d.blocks, [parent]);
    let recoloured = MiningTarget { parent, cut: Block { min: [0; 3], side: 3, material: 2 } };
    d.mine(recoloured);
    assert_eq!(d.blocks, [parent]);
    // A target whose parent is not in the scene changes nothing.
    let elsewhere = Block { min: [48; 3], ..parent };
    d.mine(MiningTarget { parent: elsewhere, cut: Block { min: [48; 3], side: 3, material: 1 } });
    assert_eq!(d.blocks, [parent]);
}

#[test]
fn tool_35_turns_an_r1_into_nineteen_c1_around_its_cut() {
    let parent = Block { min: [-72; 3], side: 72, material: 3 };
    let cut = Block { min: [-48, -72, -72], side: 48, material: 3 };
    let mut d = Demo { blocks: vec![parent], tool: TOOL_35 };
    let target = MiningTarget { parent, cut };
    let preview = d.preview_blocks(Some(target));
    assert_eq!(preview.len(), 19);
    assert!(preview.iter().all(|b| b.side == 24 && b.material == 3));
    assert_eq!(volume(&preview) + 48i64.pow(3), 72i64.pow(3));
    d.mine(target);
    assert_eq!(d.blocks, preview);
}

//! End-to-end exercises of the layout pipeline.

use graph_drawing::condense::condense;
use graph_drawing::crossing::{build_crossing_ilp, minimize_edge_crossing, AnySol as XSol};
use graph_drawing::error::{Error, Kind, RankingError};
use graph_drawing::geometry::{calculate_sols, position_sols_problem, AnySol as GSol};
use graph_drawing::graph::{graph_add_edge, graph_add_node, graph_new, roots};
use graph_drawing::placement::{calculate_locs_and_hops, Loc, Placement};
use graph_drawing::rank::rank;
use graph_drawing::vcg::{calculate_vcg, Fact, Rel, Vcg};

fn fact(path: &[&str], labels: &[(&[&str], &[&str])]) -> Fact {
    Fact {
        path: path.iter().map(|s| s.to_string()).collect(),
        labels_by_level: labels
            .iter()
            .map(|(a, p)| {
                (
                    a.iter().map(|s| Some(s.to_string())).collect(),
                    p.iter().map(|s| Some(s.to_string())).collect(),
                )
            })
            .collect(),
    }
}

fn node_id(vcg: &Vcg, name: &str) -> usize {
    vcg.nodes.iter().position(|n| n == name).expect("node")
}

fn loc_of(placement: &Placement, id: usize) -> (usize, usize) {
    placement
        .node_to_loc
        .iter()
        .find(|(l, _)| *l == Loc::Node(id))
        .expect("loc")
        .1
}

fn perms(n: usize) -> Vec<Vec<usize>> {
    if n == 0 {
        return vec![vec![]];
    }
    let mut out = Vec::new();
    for p in perms(n - 1) {
        for i in 0..=p.len() {
            let mut q = p.clone();
            q.insert(i, n - 1);
            out.push(q);
        }
    }
    out.sort();
    out
}

/// Brute-force integral solution of the crossing program: enumerate the
/// per-rank orders, pick the one with the fewest crossings, and encode it
/// as values of the program's variables.
fn solve_crossing(placement: &Placement) -> Vec<i64> {
    let ilp = build_crossing_ilp(placement);
    let rank_sizes: Vec<usize> = placement.locs_by_level.iter().map(|v| v.len()).collect();
    let per_rank: Vec<Vec<Vec<usize>>> = rank_sizes.iter().map(|&n| perms(n)).collect();
    let mut best: Option<(usize, Vec<Vec<usize>>)> = None;
    let mut idx = vec![0usize; per_rank.len()];
    loop {
        // pos[r][ohr] = position of ohr in the candidate order of rank r.
        let cand: Vec<Vec<usize>> = idx
            .iter()
            .enumerate()
            .map(|(r, &i)| {
                let order = &per_rank[r][i];
                let mut pos = vec![0usize; order.len()];
                for (p, &o) in order.iter().enumerate() {
                    pos[o] = p;
                }
                pos
            })
            .collect();
        let mut obj = 0usize;
        for (l, hops) in placement.hops_by_level.iter().enumerate() {
            for h1 in hops.iter() {
                for h2 in hops.iter() {
                    if h1.mhr.0 != h2.mhr.0 && h1.nhr.0 != h2.nhr.0 {
                        let u1 = cand[l][h1.mhr.0];
                        let u2 = cand[l][h2.mhr.0];
                        let v1 = cand[l + 1][h1.nhr.0];
                        let v2 = cand[l + 1][h2.nhr.0];
                        let c1 = !(u2 < u1) && !(v1 < v2);
                        let c2 = !(u1 < u2) && !(v2 < v1);
                        if c1 || c2 {
                            obj += 1;
                        }
                    }
                }
            }
        }
        if best.as_ref().map(|(b, _)| obj < *b).unwrap_or(true) {
            best = Some((obj, cand));
        }
        // advance the mixed-radix counter
        let mut done = true;
        for r in (0..idx.len()).rev() {
            if idx[r] + 1 < per_rank[r].len() {
                idx[r] += 1;
                for x in idx.iter_mut().skip(r + 1) {
                    *x = 0;
                }
                done = false;
                break;
            }
        }
        if done {
            break;
        }
    }
    let (_, pos) = best.expect("candidate");
    ilp.vars
        .sols
        .iter()
        .map(|s| match *s {
            XSol::X(l, a, b) => {
                if pos[l][a] < pos[l][b] {
                    1
                } else {
                    0
                }
            }
            XSol::C(l, u1, v1, u2, v2) => {
                let c1 = !(pos[l][u2] < pos[l][u1]) && !(pos[l + 1][v1] < pos[l + 1][v2]);
                let c2 = !(pos[l][u1] < pos[l][u2]) && !(pos[l + 1][v2] < pos[l + 1][v1]);
                if c1 || c2 {
                    1
                } else {
                    0
                }
            }
            XSol::T(_) => 0,
        })
        .collect()
}

struct Stage {
    vcg: Vcg,
    placement: Placement,
    crossing_number: usize,
    solved_locs: Vec<Vec<usize>>,
}

fn run_layout(facts: Vec<Fact>) -> Stage {
    let vcg = calculate_vcg(&facts).expect("vcg");
    let cvcg = condense(&vcg).expect("condense");
    let pairs: Vec<(usize, usize)> = cvcg.cedges.iter().map(|c| (c.src, c.dst)).collect();
    let rs = roots(cvcg.condensed_vxmap.len(), &pairs).expect("roots");
    let paths_by_rank = rank(&cvcg.condensed, &rs).expect("rank");
    let placement = calculate_locs_and_hops(&cvcg, &paths_by_rank).expect("placement");
    let xs = solve_crossing(&placement);
    let ilp = build_crossing_ilp(&placement);
    let (crossing_number, solved_locs) =
        minimize_edge_crossing(&placement, &ilp.vars, &xs).expect("crossing");
    Stage { vcg, placement, crossing_number, solved_locs }
}

fn shr_of(stage: &Stage, name: &str) -> usize {
    let id = node_id(&stage.vcg, name);
    let (r, o) = loc_of(&stage.placement, id);
    stage.solved_locs[r][o]
}

#[test]
pub fn no_swaps() {
    let facts = vec![
        fact(&["A", "c", "q"], &[(&["y"], &["z"])]),
        fact(&["d", "e", "af"], &[(&["w"], &["x"])]),
    ];
    let vcg = calculate_vcg(&facts).expect("vcg");
    let vx = node_id(&vcg, "e");
    let wx = node_id(&vcg, "af");
    assert_eq!(vcg.nodes[vx], "e");
    assert_eq!(vcg.nodes[wx], "af");

    let cvcg = condense(&vcg).expect("condense");
    let cvx = cvcg.condensed_vxmap.iter().position(|n| n == "e").unwrap();
    let cwx = cvcg.condensed_vxmap.iter().position(|n| n == "af").unwrap();
    assert_eq!(cvcg.condensed_vxmap[cvx], "e");
    assert_eq!(cvcg.condensed_vxmap[cwx], "af");

    let pairs: Vec<(usize, usize)> = cvcg.cedges.iter().map(|c| (c.src, c.dst)).collect();
    let rs = roots(cvcg.condensed_vxmap.len(), &pairs).expect("roots");
    let root_id = node_id(&vcg, "root");
    assert_eq!(rs, vec![root_id]);

    let paths_by_rank = rank(&cvcg.condensed, &rs).expect("rank");
    assert_eq!(paths_by_rank[3][0], (root_id, node_id(&vcg, "af")));

    let placement = calculate_locs_and_hops(&cvcg, &paths_by_rank).expect("placement");
    let lv = loc_of(&placement, node_id(&vcg, "e"));
    let lw = loc_of(&placement, node_id(&vcg, "af"));
    let lp = loc_of(&placement, node_id(&vcg, "c"));
    let lq = loc_of(&placement, node_id(&vcg, "q"));
    assert_eq!(lv.1 + lw.1, 1);
    assert_eq!(lp.1 + lq.1, 1);

    let nv2 = placement.loc_to_node.iter().find(|(k, _)| *k == lv).unwrap();
    assert_eq!(nv2.1, Loc::Node(node_id(&vcg, "e")));
    let nw2 = placement.loc_to_node.iter().find(|(k, _)| *k == lw).unwrap();
    assert_eq!(nw2.1, Loc::Node(node_id(&vcg, "af")));
    let np2 = placement.loc_to_node.iter().find(|(k, _)| *k == lp).unwrap();
    assert_eq!(np2.1, Loc::Node(node_id(&vcg, "c")));
    let nq2 = placement.loc_to_node.iter().find(|(k, _)| *k == lq).unwrap();
    assert_eq!(nq2.1, Loc::Node(node_id(&vcg, "q")));

    let xs = solve_crossing(&placement);
    let ilp = build_crossing_ilp(&placement);
    let (crossing_number, solved_locs) =
        minimize_edge_crossing(&placement, &ilp.vars, &xs).expect("crossing");
    assert_eq!(crossing_number, 0);
    let sv = solved_locs[lv.0][lv.1];
    let sw = solved_locs[lw.0][lw.1];
    let sp = solved_locs[lp.0][lp.1];
    let sq = solved_locs[lq.0][lq.1];
    assert_eq!(sv, sw);
    assert_eq!(sp, sq);

    let layout_problem = calculate_sols(&solved_locs, &placement);
    let lrv = layout_problem
        .all_locs
        .iter()
        .find(|lr| lr.loc == Loc::Node(node_id(&vcg, "e")))
        .unwrap();
    assert_eq!(lrv.ovr.0, lv.0);
    assert_eq!(lrv.ohr.0, lv.1);
    assert_eq!(lrv.shr.0, sv);
    let lrw = layout_problem
        .all_locs
        .iter()
        .find(|lr| lr.loc == Loc::Node(node_id(&vcg, "af")))
        .unwrap();
    assert_eq!(lrw.ovr.0, lw.0);
    assert_eq!(lrw.ohr.0, lw.1);
    assert_eq!(lrw.shr.0, sw);
    let lrp = layout_problem
        .all_locs
        .iter()
        .find(|lr| lr.loc == Loc::Node(node_id(&vcg, "c")))
        .unwrap();
    assert_eq!(lrp.ovr.0, lp.0);
    assert_eq!(lrp.ohr.0, lp.1);
    assert_eq!(lrp.shr.0, sp);
    let lrq = layout_problem
        .all_locs
        .iter()
        .find(|lr| lr.loc == Loc::Node(node_id(&vcg, "q")))
        .unwrap();
    assert_eq!(lrq.ovr.0, lq.0);
    assert_eq!(lrq.ohr.0, lq.1);
    assert_eq!(lrq.shr.0, sq);
}

#[test]
fn forced_crossing_counts_one() {
    // a and b each reach both c and d; whatever the orders, exactly one
    // of the two eligible hop pairs crosses.
    let facts = vec![
        fact(&["a", "d"], &[]),
        fact(&["b", "c"], &[]),
        fact(&["a", "c"], &[]),
        fact(&["b", "d"], &[]),
    ];
    let stage = run_layout(facts);
    assert_eq!(stage.crossing_number, 1);
}

#[test]
fn transitive_uncrossing_identity() {
    let facts = vec![
        fact(&["p", "x"], &[]),
        fact(&["q", "y"], &[]),
        fact(&["r", "z"], &[]),
    ];
    let stage = run_layout(facts);
    assert_eq!(stage.crossing_number, 0);
    assert_eq!(shr_of(&stage, "p"), shr_of(&stage, "x"));
    assert_eq!(shr_of(&stage, "q"), shr_of(&stage, "y"));
    assert_eq!(shr_of(&stage, "r"), shr_of(&stage, "z"));
}

#[test]
fn multirank_edge_gets_intermediate_hop() {
    let facts = vec![fact(&["a", "b", "c"], &[]), fact(&["a", "c"], &[])];
    let stage = run_layout(facts);
    let vcg = &stage.vcg;
    let a = node_id(vcg, "a");
    let c = node_id(vcg, "c");
    let entry = stage
        .placement
        .hops_by_edge
        .iter()
        .find(|(k, _)| *k == (a, c))
        .expect("edge a->c");
    assert_eq!(entry.1.len(), 2);
    // contiguous ranks, chained endpoints
    assert_eq!(entry.1[0].0 .0 + 1, entry.1[1].0 .0);
    assert_eq!(entry.1[0].2 .0, entry.1[1].1 .0);
    // the intermediate location exists and is a hop location
    let mid = (entry.1[1].0 .0, entry.1[1].1 .0);
    let at_mid = stage
        .placement
        .loc_to_node
        .iter()
        .find(|(k, _)| *k == mid)
        .expect("mid loc");
    assert!(matches!(at_mid.1, Loc::Hop(_, _, _)));
}

#[test]
fn empty_hops_identity_permutation() {
    let facts = vec![fact(&["a"], &[]), fact(&["b"], &[])];
    let stage = run_layout(facts);
    assert_eq!(stage.crossing_number, 0);
    for row in stage.solved_locs.iter() {
        for (o, s) in row.iter().enumerate() {
            assert_eq!(*s, o);
        }
    }
}

#[test]
fn solved_locs_are_permutations() {
    let facts = vec![fact(&["a", "d"], &[]), fact(&["b", "c"], &[])];
    let stage = run_layout(facts);
    for (r, row) in stage.solved_locs.iter().enumerate() {
        let mut seen = row.clone();
        seen.sort();
        let expect: Vec<usize> = (0..stage.placement.locs_by_level[r].len()).collect();
        assert_eq!(seen, expect);
    }
}

#[test]
fn crossing_number_matches_recount() {
    let facts = vec![
        fact(&["a", "d"], &[]),
        fact(&["b", "c"], &[]),
        fact(&["b", "d"], &[]),
    ];
    let stage = run_layout(facts);
    // recount crossings directly on the returned permutation
    let mut count = 0usize;
    for (l, hops) in stage.placement.hops_by_level.iter().enumerate() {
        for (i, h1) in hops.iter().enumerate() {
            for h2 in hops.iter().skip(i + 1) {
                if h1.mhr.0 != h2.mhr.0 && h1.nhr.0 != h2.nhr.0 {
                    let u1 = stage.solved_locs[l][h1.mhr.0];
                    let u2 = stage.solved_locs[l][h2.mhr.0];
                    let v1 = stage.solved_locs[l + 1][h1.nhr.0];
                    let v2 = stage.solved_locs[l + 1][h2.nhr.0];
                    if (u1 < u2 && v2 < v1) || (u2 < u1 && v1 < v2) {
                        count += 1;
                    }
                }
            }
        }
    }
    assert_eq!(stage.crossing_number, count);
}

#[test]
fn negative_cycle_is_reported() {
    let mut g = graph_new();
    let a = graph_add_node(&mut g, "a".to_string());
    let b = graph_add_node(&mut g, "b".to_string());
    graph_add_edge(&mut g, a, b, String::new());
    graph_add_edge(&mut g, b, a, String::new());
    let r = rank(&g, &vec![a]);
    assert_eq!(
        r.unwrap_err(),
        Error::RankingError { source: RankingError::NegativeCycleError }
    );
}

#[test]
fn upward_edge_is_an_indexing_error() {
    // An edge whose endpoints share a rank cannot be cut into hops.
    let facts = vec![fact(&["a", "b"], &[]), fact(&["b", "a"], &[])];
    let vcg = calculate_vcg(&facts);
    // the cycle is caught at ranking, one stage earlier
    let vcg = vcg.expect("vcg");
    let cvcg = condense(&vcg).expect("condense");
    let pairs: Vec<(usize, usize)> = cvcg.cedges.iter().map(|c| (c.src, c.dst)).collect();
    let rs = roots(cvcg.condensed_vxmap.len(), &pairs).expect("roots");
    let r = rank(&cvcg.condensed, &rs);
    assert!(matches!(
        r,
        Err(Error::RankingError { source: RankingError::NegativeCycleError })
    ));
}

#[test]
fn missing_rank_is_an_indexing_error() {
    let facts = vec![fact(&["a", "b"], &[])];
    let vcg = calculate_vcg(&facts).expect("vcg");
    let cvcg = condense(&vcg).expect("condense");
    // Hand the placement builder an empty ranking: every edge endpoint is
    // then unranked.
    let empty: Vec<Vec<(usize, usize)>> = Vec::new();
    let r = calculate_locs_and_hops(&cvcg, &empty);
    assert_eq!(
        r.unwrap_err(),
        Error::GraphDrawingError { source: Kind::IndexingError }
    );
}

#[test]
fn no_facts_no_hops() {
    let stage = run_layout(vec![]);
    assert_eq!(stage.crossing_number, 0);
    assert!(stage.solved_locs.is_empty());
}

#[test]
fn whitespace_labels_make_fake_edges() {
    // A label that trims to nothing yields no labeled edge at all.
    let facts = vec![fact(&["a", "b"], &[(&["   "], &[])])];
    let vcg = calculate_vcg(&facts).expect("vcg");
    let a = node_id(&vcg, "a");
    let b = node_id(&vcg, "b");
    assert!(!vcg
        .edges
        .iter()
        .any(|e| e.src == a && e.dst == b && e.rel == Rel::Actuates));
    assert!(vcg
        .edges
        .iter()
        .any(|e| e.src == a && e.dst == b && e.rel == Rel::Fake));
    let fake_row = vcg
        .vert_edge_labels
        .iter()
        .find(|r| r.src == a && r.dst == b && r.rel == Rel::Fake)
        .expect("fake label row");
    assert_eq!(fake_row.labels, vec!["?".to_string()]);
}

#[test]
fn labels_are_trimmed_and_recorded() {
    let facts = vec![fact(&["a", "b"], &[(&["  start "], &[" beep"])])];
    let vcg = calculate_vcg(&facts).expect("vcg");
    let a = node_id(&vcg, "a");
    let b = node_id(&vcg, "b");
    assert!(vcg
        .edges
        .iter()
        .any(|e| e.src == a && e.dst == b && e.rel == Rel::Actuates));
    assert!(vcg
        .edges
        .iter()
        .any(|e| e.src == a && e.dst == b && e.rel == Rel::Senses));
    let row = vcg
        .vert_edge_labels
        .iter()
        .find(|r| r.src == a && r.dst == b && r.rel == Rel::Actuates)
        .expect("label row");
    assert_eq!(row.labels, vec!["start".to_string()]);
    let row2 = vcg
        .vert_edge_labels
        .iter()
        .find(|r| r.src == a && r.dst == b && r.rel == Rel::Senses)
        .expect("label row");
    assert_eq!(row2.labels, vec!["beep".to_string()]);
}

#[test]
fn condensed_edges_sorted_by_name() {
    let facts = vec![fact(&["b", "z"], &[]), fact(&["a", "z"], &[])];
    let vcg = calculate_vcg(&facts).expect("vcg");
    let cvcg = condense(&vcg).expect("condense");
    let names: Vec<(String, String)> = cvcg
        .cedges
        .iter()
        .map(|c| (vcg.nodes[c.src].clone(), vcg.nodes[c.dst].clone()))
        .collect();
    let mut sorted = names.clone();
    sorted.sort();
    assert_eq!(names, sorted);
    // parallel labeled edges collapse into one condensed edge
    let a = node_id(&vcg, "a");
    let z = node_id(&vcg, "z");
    assert_eq!(
        cvcg.cedges.iter().filter(|c| c.src == a && c.dst == z).count(),
        1
    );
}

#[test]
fn ranking_by_longest_path() {
    let facts = vec![fact(&["a", "b", "c"], &[])];
    let vcg = calculate_vcg(&facts).expect("vcg");
    let cvcg = condense(&vcg).expect("condense");
    let pairs: Vec<(usize, usize)> = cvcg.cedges.iter().map(|c| (c.src, c.dst)).collect();
    let rs = roots(cvcg.condensed_vxmap.len(), &pairs).expect("roots");
    let paths = rank(&cvcg.condensed, &rs).expect("rank");
    let root_id = node_id(&vcg, "root");
    assert_eq!(paths.len(), 4);
    assert_eq!(paths[0], vec![(root_id, root_id)]);
    assert_eq!(paths[1], vec![(root_id, node_id(&vcg, "a"))]);
    assert_eq!(paths[2], vec![(root_id, node_id(&vcg, "b"))]);
    assert_eq!(paths[3], vec![(root_id, node_id(&vcg, "c"))]);
}

/// Minimal feasible positions of the difference-constraint rows, by
/// longest-path relaxation; auxiliary equalities are read off afterwards.
fn solve_positions(gp: &graph_drawing::geometry::GeometryProblem) -> Vec<i64> {
    let n = gp.vars.sols.len();
    let mut val = vec![0i64; n];
    for _ in 0..(n + 2) {
        let mut changed = false;
        for row in gp.csp.constrs.iter() {
            if row.upper.is_none() && row.comb.len() == 2 {
                let (m0, m1) = (row.comb[0], row.comb[1]);
                let (pos, neg) = if m0.coeff == 1 { (m0, m1) } else { (m1, m0) };
                if pos.coeff == 1 && neg.coeff == -1 {
                    let want = val[neg.var.index] + row.lower;
                    if val[pos.var.index] < want {
                        val[pos.var.index] = want;
                        changed = true;
                    }
                }
            }
        }
        if !changed {
            break;
        }
    }
    // auxiliary symmetry variables: t = a - b
    for row in gp.csp.constrs.iter() {
        if row.upper == Some(0) && row.lower == 0 && row.comb.len() == 3 {
            let t = row.comb[0];
            let a = row.comb[1];
            let b = row.comb[2];
            if t.coeff == 1 && a.coeff == -1 && b.coeff == 1 {
                val[t.var.index] = val[a.var.index] - val[b.var.index];
            }
        }
    }
    val
}

fn sol_index(gp: &graph_drawing::geometry::GeometryProblem, s: GSol) -> usize {
    gp.vars.sols.iter().position(|x| *x == s).expect("var")
}

#[test]
fn containment_and_separation_hold() {
    let facts = vec![fact(&["n", "u"], &[]), fact(&["n", "v"], &[])];
    let vcg = calculate_vcg(&facts).expect("vcg");
    let cvcg = condense(&vcg).expect("condense");
    let pairs: Vec<(usize, usize)> = cvcg.cedges.iter().map(|c| (c.src, c.dst)).collect();
    let rs = roots(cvcg.condensed_vxmap.len(), &pairs).expect("roots");
    let paths = rank(&cvcg.condensed, &rs).expect("rank");
    let placement = calculate_locs_and_hops(&cvcg, &paths).expect("placement");
    let xs = solve_crossing(&placement);
    let ilp = build_crossing_ilp(&placement);
    let (_, solved) = minimize_edge_crossing(&placement, &ilp.vars, &xs).expect("crossing");
    let mut lp = calculate_sols(&solved, &placement);
    for row in lp.all_locs.clone() {
        lp.width_by_loc.push(((row.ovr.0, row.ohr.0), 30));
    }
    for h in lp.all_hops.clone() {
        lp.width_by_hop.push(((h.lvl.0, h.mhr.0, h.vl, h.wl), (30, 30)));
    }
    let gp = position_sols_problem(&vcg, &placement, &solved, &lp).expect("geometry");
    let val = solve_positions(&gp);
    let sep = 20i64;
    // frame containment and minimum widths for every location
    let root = gp.root_n;
    for row in lp.all_locs.iter() {
        let l = val[sol_index(&gp, GSol::L(row.n))];
        let r = val[sol_index(&gp, GSol::R(row.n))];
        assert!(l <= r);
        assert!(r - l >= 30);
        let lroot = val[sol_index(&gp, GSol::L(root))];
        let rroot = val[sol_index(&gp, GSol::R(root))];
        assert!(lroot <= l && r <= rroot);
    }
    // the node with two outgoing hops is at least as wide as their labels
    let n_id = node_id(&vcg, "n");
    let (nr, no) = loc_of(&placement, n_id);
    let nrow = lp
        .all_locs
        .iter()
        .find(|r| r.ovr.0 == nr && r.ohr.0 == no)
        .unwrap();
    let l = val[sol_index(&gp, GSol::L(nrow.n))];
    let r = val[sol_index(&gp, GSol::R(nrow.n))];
    assert!(r - l >= 120);
    // hops start within the node's frame, label widths respected
    for h in lp.all_hops.iter() {
        if h.vl == n_id && h.lvl.0 == nr && h.mhr.0 == no {
            let s = val[sol_index(&gp, GSol::S(h.n))];
            assert!(l + sep + 30 <= s);
            assert!(s <= r - sep - 30);
        }
    }
    // solved-order neighbors keep their separation
    for r1 in lp.all_locs.iter() {
        for r2 in lp.all_locs.iter() {
            if r1.ovr == r2.ovr && r2.shr.0 == r1.shr.0 + 1 {
                let right = val[sol_index(&gp, GSol::L(r2.n))];
                let left = val[sol_index(&gp, GSol::R(r1.n))];
                assert!(right - left >= sep);
            }
        }
    }
    // the two hops leaving the node keep sep plus their facing labels
    let mut outgoing: Vec<i64> = lp
        .all_hops
        .iter()
        .filter(|h| h.vl == n_id && h.lvl.0 == nr && h.mhr.0 == no)
        .map(|h| val[sol_index(&gp, GSol::S(h.n))])
        .collect();
    outgoing.sort();
    assert_eq!(outgoing.len(), 2);
    assert!(outgoing[1] - outgoing[0] >= sep + 30 + 30);
}

#[test]
fn missing_width_is_a_solver_error() {
    let facts = vec![fact(&["a", "b"], &[])];
    let vcg = calculate_vcg(&facts).expect("vcg");
    let cvcg = condense(&vcg).expect("condense");
    let pairs: Vec<(usize, usize)> = cvcg.cedges.iter().map(|c| (c.src, c.dst)).collect();
    let rs = roots(cvcg.condensed_vxmap.len(), &pairs).expect("roots");
    let paths = rank(&cvcg.condensed, &rs).expect("rank");
    let placement = calculate_locs_and_hops(&cvcg, &paths).expect("placement");
    let xs = solve_crossing(&placement);
    let ilp = build_crossing_ilp(&placement);
    let (_, solved) = minimize_edge_crossing(&placement, &ilp.vars, &xs).expect("crossing");
    let lp = calculate_sols(&solved, &placement);
    // no measured widths at all
    let r = position_sols_problem(&vcg, &placement, &solved, &lp);
    assert!(matches!(r, Err(Error::LayoutError { .. })));
}

#[test]
fn symmetry_objective_matches_differences() {
    // One multi-rank edge: its two control points carry one symmetry
    // penalty, and the objective value is 100 times the squared gap.
    let facts = vec![fact(&["a", "b", "c"], &[]), fact(&["a", "c"], &[])];
    let vcg = calculate_vcg(&facts).expect("vcg");
    let cvcg = condense(&vcg).expect("condense");
    let pairs: Vec<(usize, usize)> = cvcg.cedges.iter().map(|c| (c.src, c.dst)).collect();
    let rs = roots(cvcg.condensed_vxmap.len(), &pairs).expect("roots");
    let paths = rank(&cvcg.condensed, &rs).expect("rank");
    let placement = calculate_locs_and_hops(&cvcg, &paths).expect("placement");
    let xs = solve_crossing(&placement);
    let ilp = build_crossing_ilp(&placement);
    let (_, solved) = minimize_edge_crossing(&placement, &ilp.vars, &xs).expect("crossing");
    let mut lp = calculate_sols(&solved, &placement);
    for row in lp.all_locs.clone() {
        lp.width_by_loc.push(((row.ovr.0, row.ohr.0), 30));
    }
    let gp = position_sols_problem(&vcg, &placement, &solved, &lp).expect("geometry");
    let val = solve_positions(&gp);
    assert!(!gp.pd.is_empty());
    // objective computed through the diagonal equals the direct sum of
    // squared successor gaps
    let mut via_diag = 0i64;
    for m in gp.pd.iter() {
        assert_eq!(m.coeff, 100);
        let t = val[m.var.index];
        via_diag += 100 * t * t;
    }
    let mut direct = 0i64;
    for h in lp.all_hops.iter() {
        if h.nhr.0 <= lp.all_locs.len() {
            if let Some(entry) = lp
                .sol_by_hop
                .iter()
                .find(|(k, _)| *k == (h.lvl.0 + 1, h.nhr.0, h.vl, h.wl))
            {
                let s = val[sol_index(&gp, GSol::S(h.n))];
                let snd = val[sol_index(&gp, GSol::S(entry.1))];
                direct += 100 * (s - snd) * (s - snd);
            }
        }
    }
    assert_eq!(via_diag, direct);
}

#[test]
fn condense_keeps_parallel_edges() {
    // two live action labels and one percept on a single segment: the
    // condensed edge records one triple per parallel original edge,
    // duplicates of a kind included, sorted by kind.
    let facts = vec![fact(&["a", "b"], &[(&["y", "z"], &["w"])])];
    let vcg = calculate_vcg(&facts).expect("vcg");
    let a = node_id(&vcg, "a");
    let b = node_id(&vcg, "b");
    let cvcg = condense(&vcg).expect("condense");
    let ce = cvcg
        .cedges
        .iter()
        .find(|c| (c.src == a && c.dst == b) || (c.src == b && c.dst == a))
        .expect("condensed edge");
    assert_eq!(ce.triples.len(), 3);
    let acts = ce.triples.iter().filter(|t| t.2 == Rel::Actuates).count();
    let sens = ce.triples.iter().filter(|t| t.2 == Rel::Senses).count();
    assert_eq!(acts, 2);
    assert_eq!(sens, 1);
    assert_eq!(ce.triples[0].2, Rel::Actuates);
    assert_eq!(ce.triples[1].2, Rel::Actuates);
    assert_eq!(ce.triples[2].2, Rel::Senses);
    for t in &ce.triples {
        assert_eq!((t.0, t.1), (ce.src, ce.dst));
    }
}

#[test]
fn rank_offsets_follow_label_heights() {
    // two action labels on the a->b segment: rank 1 (where a stands)
    // gains height one, every other rank none, so the per-rank top
    // offsets step exactly there.
    let facts = vec![fact(&["a", "b"], &[(&["y", "z"], &[])])];
    let vcg = calculate_vcg(&facts).expect("vcg");
    let cvcg = condense(&vcg).expect("condense");
    let pairs: Vec<(usize, usize)> = cvcg.cedges.iter().map(|c| (c.src, c.dst)).collect();
    let rs = roots(cvcg.condensed_vxmap.len(), &pairs).expect("roots");
    let paths = rank(&cvcg.condensed, &rs).expect("rank");
    let placement = calculate_locs_and_hops(&cvcg, &paths).expect("placement");
    let xs = solve_crossing(&placement);
    let ilp = build_crossing_ilp(&placement);
    let (_, solved) = minimize_edge_crossing(&placement, &ilp.vars, &xs).expect("crossing");
    let mut lp = calculate_sols(&solved, &placement);
    for row in lp.all_locs.clone() {
        lp.width_by_loc.push(((row.ovr.0, row.ohr.0), 30));
    }
    for h in lp.all_hops.clone() {
        lp.width_by_hop.push(((h.lvl.0, h.mhr.0, h.vl, h.wl), (30, 30)));
    }
    let gp = position_sols_problem(&vcg, &placement, &solved, &lp).expect("geometry");
    let a_rank = loc_of(&placement, node_id(&vcg, "a")).0;
    assert_eq!(gp.ts.len(), placement.locs_by_level.len());
    assert_eq!(gp.ts[0], 0);
    for r in 0..gp.ts.len() - 1 {
        let step = gp.ts[r + 1] - gp.ts[r];
        if r == a_rank {
            assert_eq!(step, 1);
        } else {
            assert_eq!(step, 0);
        }
    }
}

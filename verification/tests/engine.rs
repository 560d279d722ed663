use tower_core::position::Position;
use tower_core::wfc::{WfcStep, WFC};

fn cross_constraints() -> Vec<Vec<(Position, Vec<usize>)>> {
    vec![
        vec![
            (Position::up(), vec![0, 1]),
            (Position::down(), vec![0, 1]),
            (Position::left(), vec![0, 1]),
            (Position::right(), vec![0, 1]),
        ],
        vec![
            (Position::up(), vec![0, 1, 2]),
            (Position::down(), vec![0, 1, 2]),
            (Position::left(), vec![0, 1, 2]),
            (Position::right(), vec![0, 1, 2]),
        ],
        vec![
            (Position::up(), vec![1, 2]),
            (Position::down(), vec![1, 2]),
            (Position::left(), vec![1, 2]),
            (Position::right(), vec![1, 2]),
        ],
    ]
}

#[test]
fn test_basic_wfc_tiled() {
    let constraints = cross_constraints();
    let mut wfc = WFC::new(5, 5, constraints, vec![1, 1, 1]);
    loop {
        match wfc.next() {
            WfcStep::Progress => println!("{}", wfc.render()),
            WfcStep::Solved => break,
            WfcStep::Contradiction => panic!("contradiction on a satisfiable table"),
        }
    }
    assert!(wfc.next() == WfcStep::Solved);
}

#[test]
fn test_wfc_all_cells_chosen() {
    let constraints = cross_constraints();
    let mut wfc = WFC::new(4, 3, constraints, vec![2, 1, 3]);
    while wfc.next() == WfcStep::Progress {}
    assert_eq!(wfc.uncollapsed_cells, 0);
    for cell in wfc.cells.iter() {
        assert!(cell.chosen_index.is_some());
        let k = cell.chosen_index.unwrap();
        // once collapsed, exactly the chosen index stays possible
        for (i, &p) in cell.possible.iter().enumerate() {
            assert_eq!(p, i == k);
        }
    }
}

#[test]
fn test_wfc_adjacency_satisfied() {
    let constraints = cross_constraints();
    let width = 6usize;
    let height = 6usize;
    let mut wfc = WFC::new(width, height, constraints.clone(), vec![1, 1, 1]);
    while wfc.next() == WfcStep::Progress {}
    let chosen = |x: i32, y: i32| -> usize {
        wfc.cells
            .get(&Position::new(x, y))
            .unwrap()
            .chosen_index
            .unwrap()
    };
    for y in 0..height as i32 {
        for x in 0..width as i32 {
            let c = chosen(x, y);
            for (dx, dy) in [(0, 1), (0, -1), (-1, 0), (1, 0)] {
                let nx = x + dx;
                let ny = y + dy;
                if nx < 0 || nx >= width as i32 || ny < 0 || ny >= height as i32 {
                    continue;
                }
                let n = chosen(nx, ny);
                let dir = Position::new(dx, dy);
                let allowed = constraints[c]
                    .iter()
                    .any(|(d, sockets)| *d == dir && sockets.contains(&n));
                assert!(allowed, "tile {n} next to {c} towards {dir:?}");
            }
        }
    }
}

#[test]
fn test_wfc_contradiction_surfaces() {
    // a single tile type that allows nothing next to itself: the first
    // collapse empties its neighbors, the second step must fail
    let constraints: Vec<Vec<(Position, Vec<usize>)>> = vec![vec![
        (Position::up(), vec![]),
        (Position::down(), vec![]),
        (Position::left(), vec![]),
        (Position::right(), vec![]),
    ]];
    let mut wfc = WFC::new(2, 1, constraints, vec![1]);
    assert_eq!(wfc.next(), WfcStep::Progress);
    assert_eq!(wfc.next(), WfcStep::Contradiction);
}

#[test]
fn test_wfc_monotone_possibilities() {
    let constraints = cross_constraints();
    let mut wfc = WFC::new(5, 5, constraints, vec![1, 1, 1]);
    let mut before: Vec<Vec<bool>> = wfc.cells.iter().iter().map(|c| c.possible.clone()).collect();
    while wfc.next() == WfcStep::Progress {
        let after: Vec<Vec<bool>> = wfc.cells.iter().iter().map(|c| c.possible.clone()).collect();
        for (b, a) in before.iter().zip(after.iter()) {
            for (vb, va) in b.iter().zip(a.iter()) {
                // possibilities only shrink
                assert!(*vb || !*va);
            }
        }
        before = after;
    }
}

#[test]
fn test_render_shape() {
    let constraints = cross_constraints();
    let wfc = WFC::new(3, 2, constraints, vec![1, 1, 1]);
    let text = wfc.render();
    let lines: Vec<&str> = text.lines().collect();
    assert_eq!(lines.len(), 2);
    for line in lines {
        // three cells, each "012 " wide
        assert_eq!(line, "012 012 012 ");
    }
}

use fwtype::{
    aggregate, compute_geo, digit_count, page_height, paginate, parse_2d_int, resolve_ndigits,
    CharSize, Param, DIME_AUTO,
};

fn lines(strs: &[&str]) -> Vec<String> {
    strs.iter().map(|s| s.to_string()).collect()
}

fn plain_param() -> Param {
    Param {
        font: "\\ttfamily".to_string(),
        csize: CharSize { width: 5, height: 10 },
        numcsize: CharSize { width: 3, height: 6 },
        lheight: 12,
        inmargin: 5,
        sepmargin: 2,
        frames: 15,
        tabstop: 8,
        wmin: 0,
        wmax: 53,
        lmin: 0,
        lmax: 9999,
        braise: 0,
        gridpitch: String::new(),
        ghpitch: 0,
        gvpitch: 0,
        raise: String::new(),
        outmargin: String::new(),
        abovegap: String::new(),
        belowgap: String::new(),
        leftgap: String::new(),
        rightgap: String::new(),
        lnooffset: 0,
        lnowidth: DIME_AUTO,
        spcmarking: false,
        grid: false,
        numbering: false,
        standalone: false,
        pagebreaking: false,
    }
}

#[test]
fn empty_input_measures_to_nothing() {
    let scan = aggregate(&lines(&[]), 8, 53);
    assert_eq!(scan.crow, 0);
    assert_eq!(scan.nchars, 0);
    assert!(scan.rows.is_empty());
    assert_eq!(resolve_ndigits(DIME_AUTO, scan.crow), 1);
    let pages = paginate(scan.rows, 50);
    assert_eq!(pages.len(), 0);
}

#[test]
fn three_lines_paginate_as_two_then_one() {
    let scan = aggregate(&lines(&["one", "two", "three"]), 8, 53);
    assert_eq!(scan.crow, 3);
    let pages = paginate(scan.rows, 2);
    assert_eq!(pages.len(), 2);
    assert_eq!(pages[0].rows.len(), 2);
    assert_eq!(pages[1].rows.len(), 1);
    assert_eq!(pages[0].lineoffset, 0);
    assert_eq!(pages[1].lineoffset, 2);
}

#[test]
fn pagination_covers_the_stream_in_order() {
    let scan = aggregate(&lines(&["a", "bb", "ccc", "dddd", "eeeee"]), 8, 53);
    let expected: Vec<isize> = scan.rows.iter().map(|r| r.width).collect();
    let pages = paginate(scan.rows, 2);
    assert_eq!(pages.len(), 3);
    assert_eq!(pages[2].rows.len(), 1);
    let got: Vec<isize> = pages
        .iter()
        .flat_map(|p| p.rows.iter().map(|r| r.width))
        .collect();
    assert_eq!(got, expected);
    assert_eq!(pages[2].lineoffset, 4);
}

#[test]
fn first_row_of_each_line_carries_its_number() {
    // the second line wraps: only its first row is numbered
    let scan = aggregate(&lines(&["ab", "cdef"]), 8, 2);
    let nums: Vec<isize> = scan.rows.iter().map(|r| r.lineno).collect();
    assert_eq!(nums, vec![1, 2, -1]);
    assert_eq!(scan.crow, 3);
    assert_eq!(scan.nchars, 2);
}

#[test]
fn nchars_bounds_every_row() {
    let scan = aggregate(&lines(&["short", "a much longer line", "mid"]), 8, 80);
    for r in &scan.rows {
        assert!(r.width <= scan.nchars);
    }
    assert_eq!(scan.nchars, 18);
}

#[test]
fn digit_count_follows_powers_of_ten() {
    assert_eq!(digit_count(0), 1);
    assert_eq!(digit_count(1), 1);
    assert_eq!(digit_count(9), 1);
    assert_eq!(digit_count(10), 2);
    assert_eq!(digit_count(99), 2);
    assert_eq!(digit_count(100), 3);
    assert_eq!(digit_count(99999), 5);
    assert_eq!(digit_count(100000), 6);
    assert_eq!(resolve_ndigits(4, 99999), 4);
    assert_eq!(resolve_ndigits(DIME_AUTO, 12), 2);
}

#[test]
fn geometry_formulas_are_exact() {
    let mut param = plain_param();
    param.numbering = true;
    let g = compute_geo(&param, 18, 2, 7);
    // gutter: 3 cells * (2 digits + 1)
    assert_eq!(g.nchars, 18);
    assert_eq!(g.ndigits, 2);
    assert_eq!(g.txoffset, 5 + 3 * 3 + 2);
    assert_eq!(g.txwidth, 5 * 2 + 18 * 5);
    assert_eq!(g.txwmin, 5 * 2);
    assert_eq!(g.cvwidth, g.txoffset + g.txwidth);
    assert_eq!(g.cvheight, 7 * 12 + 5 * 2);
    assert_eq!(g.cvhmin, 5 * 2);
    // numbering off drops the whole offset
    let g = compute_geo(&plain_param(), 18, 2, 7);
    assert_eq!(g.txoffset, 0);
    assert_eq!(g.cvwidth, g.txwidth);
}

#[test]
fn page_height_clamps_to_the_floor() {
    // a short page is raised to the minimum height
    assert_eq!(page_height(1, 12, 5, 100), 100);
    // a tall page keeps its own height
    assert_eq!(page_height(10, 12, 5, 100), 130);
    assert_eq!(page_height(0, 12, 5, 0), 10);
}

#[test]
fn csize_shorthand_feeds_geometry() {
    let cs = parse_2d_int("20x10").unwrap();
    assert_eq!(cs, CharSize { width: 10, height: 20 });
    let mut param = plain_param();
    param.csize = cs;
    let g = compute_geo(&param, 4, 1, 2);
    assert_eq!(g.txwidth, 5 * 2 + 4 * 10);
}

use advent_25::day11::{both, count_paths_to, parse_graph, part1, part2, Error, DAC_ID, NO_NODE, OUT_ID, SVR_ID, YOU_ID};

const EXAMPLE: &str = "\
aaa: you hhh
you: bbb ccc
bbb: ddd eee
ccc: ddd eee fff
ddd: ggg
eee: out
fff: out
ggg: out
hhh: ccc fff iii
iii: out
";

const EXAMPLE2: &str = "\
svr: aaa bbb
aaa: fft
fft: ccc
bbb: tty
tty: ccc
ccc: ddd eee
ddd: hub
hub: fff
eee: dac
dac: fff
fff: ggg hhh
ggg: out
hhh: out
";

#[test]
fn day11_example_part1() {
    let result = part1(EXAMPLE).unwrap();
    assert_eq!(result, 5);
}

#[test]
fn day11_example_part2() {
    let result = part2(EXAMPLE2).unwrap();
    assert_eq!(result, 2);
}

#[test]
fn both_parts_of_the_graph() {
    let text = format!("{}you: svr\n", EXAMPLE2);
    assert_eq!(both(&text), Ok((8, 2)));
}

#[test]
fn graph_numbers_names_in_the_order_they_appear() {
    let graph = parse_graph(b"  b: a  you\tb \r\n\nyou : out\n a: out out\n").unwrap();
    let names: Vec<&[u8]> = graph.names.iter().map(|n| n.as_slice()).collect();
    assert_eq!(names, vec![&b"out"[..], b"you", b"svr", b"dac", b"fft", b"b", b"a"]);
    assert_eq!(graph.adj[5], vec![6, 1, 5]);
    assert_eq!(graph.adj[1], vec![0]);
    assert_eq!(graph.adj[6], vec![0, 0]);
    assert_eq!(count_paths_to(&graph, 6, OUT_ID, NO_NODE), Ok(2));
    assert_eq!(count_paths_to(&graph, YOU_ID, OUT_ID, NO_NODE), Ok(1));
    assert_eq!(count_paths_to(&graph, 5, OUT_ID, NO_NODE), Err(Error::Cycle));
    assert_eq!(count_paths_to(&graph, 5, OUT_ID, 5), Ok(0));
    assert_eq!(count_paths_to(&graph, SVR_ID, DAC_ID, NO_NODE), Ok(0));
}

#[test]
fn each_day11_error() {
    assert_eq!(part1("you out\n"), Err(Error::MissingColon));
    assert_eq!(part1("you: a\na: you\n"), Err(Error::Cycle));
    let mut wide = String::from("you: n0 n0\n");
    for i in 0..64 {
        wide.push_str(&format!("n{}: n{} n{}\n", i, i + 1, i + 1));
    }
    wide.push_str("n64: out\n");
    assert_eq!(part1(&wide), Err(Error::Overflow));
    let mut many = String::new();
    for i in 0..65531 {
        many.push_str(&format!("x{}: out\n", i));
    }
    assert_eq!(part1(&many), Err(Error::TooManyNodes));
}

use aoc25::days::aoc01::{multiples_of_100_between, Turn, TurnError};
use aoc25::days::aoc02;
use aoc25::days::aoc03::Bank;
use aoc25::days::aoc04;
use aoc25::days::aoc05::{self, Inventory};
use aoc25::days::aoc06::{self, Operator, Problem, ProblemsOne, ProblemsTwo, SheetError};
use aoc25::days::aoc07;
use aoc25::days::aoc08;
use aoc25::days::aoc09;
use aoc25::graph::Graph;
use aoc25::days::aoc10::{self, Machine};
use aoc25::days::aoc11::{self, Host, NetworkError};
use aoc25::days::aoc12::{self, Presents, Shape};
use aoc25::vex::Vex;
use aoc25::grid::Grid;

#[test]
fn aoc03_test_one() {
    let bank: Bank = Bank::parse("123456123").unwrap();
    assert_eq!(bank.part_one(), Some(63));

    let bank: Bank = Bank::parse("987654321111111").unwrap();
    assert_eq!(bank.part_one(), Some(98));
    let bank: Bank = Bank::parse("811111111111119").unwrap();
    assert_eq!(bank.part_one(), Some(89));
    let bank: Bank = Bank::parse("234234234234278").unwrap();
    assert_eq!(bank.part_one(), Some(78));
    let bank: Bank = Bank::parse("818181911112111").unwrap();
    assert_eq!(bank.part_one(), Some(92));
    let bank: Bank = Bank::parse("818181989111121").unwrap();
    assert_eq!(bank.part_one(), Some(99));
}

#[test]
fn aoc03_test_two() {
    let bank: Bank = Bank::parse("987654321111111").unwrap();
    assert_eq!(bank.part_two(), Some(987654321111));
    let bank: Bank = Bank::parse("811111111111119").unwrap();
    assert_eq!(bank.part_two(), Some(811111111119));
    let bank: Bank = Bank::parse("234234234234278").unwrap();
    assert_eq!(bank.part_two(), Some(434234234278));
    let bank: Bank = Bank::parse("818181911112111").unwrap();
    assert_eq!(bank.part_two(), Some(888911112111));
}

#[test]
fn a_bank_needs_data() {
    assert!(Bank::parse("").is_err());
    assert_eq!(Bank::parse("7").unwrap().part_one(), None);
    assert_eq!(Bank::parse("12345678901").unwrap().part_two(), None);
}

const ROLLS: &str = "..@@.@@@@.\n@@@.@.@.@@\n@@@@@.@.@@\n@.@@@@..@.\n@@.@@@@.@@\n.@@@@@@@.@\n.@.@.@.@@@\n@.@@@.@@@@\n.@@@@@@@@.\n@.@.@@@.@.";

#[test]
fn test_part_one() {
    let grid = Grid::from_str(ROLLS).unwrap();
    let accessible = aoc04::part_one(&grid);
    assert_eq!(accessible, 13);
}

#[test]
fn test_part_two() {
    let grid = Grid::from_str(ROLLS).unwrap();
    let accessible = aoc04::part_two(grid);
    assert_eq!(accessible, 43);
}

#[test]
fn accessible_rolls_come_row_after_row() {
    let grid: Grid<aoc04::MapCell> = Grid::from_str("@.@\n@@@\n@@@").unwrap();
    assert_eq!(aoc04::find_accessible(&grid), vec![(0, 0), (0, 2), (2, 0), (2, 2)]);
}

const INVENTORY: &str = "3-5\n10-14\n16-20\n12-18\n\n1\n5\n8\n11\n17\n32";

#[test]
fn aoc05_test_one() {
    let inventory = Inventory::parse(INVENTORY).unwrap();
    let fresh = aoc05::part_one(inventory);
    assert_eq!(fresh, 3);
}

#[test]
fn aoc05_test_two() {
    let inventory = Inventory::parse(INVENTORY).unwrap();
    let fresh = aoc05::part_two(inventory);
    assert_eq!(fresh, 14);
}

#[test]
fn an_inventory_needs_both_parts() {
    assert_eq!(Inventory::parse("3-5\n7"), Err(aoc05::InventoryError::PartMissing));
    let inv = Inventory::parse("3-5\nx-1\n+2-4\n\n7\nseven\n+8").unwrap();
    assert_eq!(inv.fresh, vec![(3, 5), (2, 4)]);
    assert_eq!(inv.ids, vec![7, 8]);
}

#[test]
fn one_round_of_merging_counts_its_joins() {
    let (kept, joins) = aoc05::merge_ranges(vec![(3, 5), (10, 14), (16, 20), (12, 18)]);
    assert_eq!(kept, vec![(3, 5), (10, 18), (16, 20)]);
    assert_eq!(joins, 1);
    let (kept, joins) = aoc05::merge_ranges(kept);
    assert_eq!(kept, vec![(3, 5), (10, 20)]);
    assert_eq!(joins, 1);
    let (kept, joins) = aoc05::merge_ranges(kept);
    assert_eq!(kept, vec![(3, 5), (10, 20)]);
    assert_eq!(joins, 0);
}

const MANIFOLD: &str = ".......S.......\n...............\n.......^.......\n...............\n......^.^......\n...............\n.....^.^.^.....\n...............\n....^.^...^....\n...............\n...^.^...^.^...\n...............\n..^...^.....^..\n...............\n.^.^.^.^.^...^.\n...............";

#[test]
fn aoc07_test_one() {
    let manifold = Grid::from_str(MANIFOLD).unwrap();
    let splits = aoc07::part_one(&manifold);
    assert_eq!(splits, 21);
}

#[test]
fn aoc07_test_two() {
    let manifold = Grid::from_str(MANIFOLD).unwrap();
    let timelines = aoc07::part_two(&manifold);
    assert_eq!(timelines, 40);
}

const SHEET: &str = "123 328  51 64 \n 45 64  387 23 \n  6 98  215 314\n*   +   *   +  ";

#[test]
fn aoc06_test_one() {
    let problems = ProblemsOne::parse(SHEET).unwrap();
    let totals = aoc06::part_one(problems);
    assert_eq!(totals, vec![33210, 490, 4243455, 401]);
    let grand_total: u64 = totals.iter().sum();
    assert_eq!(grand_total, 4277556);
}

#[test]
fn aoc06_test_two() {
    let problems = ProblemsTwo::parse(SHEET).unwrap();
    let totals = aoc06::part_two(problems);
    assert_eq!(totals, vec![8544, 625, 3253600, 1058]);
    let grand_total: u64 = totals.iter().sum();
    assert_eq!(grand_total, 3263827);
}

#[test]
fn a_sheet_that_cannot_be_read_says_why() {
    assert_eq!(ProblemsOne::parse("1 2\n+ +").err(), Some(SheetError::TooFewLines(2)));
    assert_eq!(ProblemsOne::parse("1 2\n3 4\n+").err(), Some(SheetError::OperatorCount(1, 2)));
    assert_eq!(ProblemsOne::parse("1 2\n3\n+ *").err(), Some(SheetError::NumberCount(1, 2)));
    assert_eq!(ProblemsTwo::parse("12\n34\n 5").err(), Some(SheetError::NoOperator));
    let one = ProblemsOne::parse("1 2\n3 4\n* +").unwrap();
    assert_eq!(aoc06::part_one(one), vec![3, 6]);
}

const TILES: &str = "7,1\n11,1\n11,7\n9,7\n9,5\n2,5\n2,3\n7,3\n";

#[test]
fn aoc09_test_one() {
    let points = aoc09::parse(TILES);
    let total = aoc09::part_one(&points);
    assert_eq!(total, 50);
}

#[test]
fn points_are_read_with_their_signs() {
    let points = aoc09::parse("-3,+4\nx,1\n5\n6,-7");
    assert_eq!(points, vec![Vex::new([-3, 4]), Vex::new([6, -7])]);
    assert_eq!(aoc09::compute_rect(&points[0], &points[1]), 10 * 12);
    assert_eq!(aoc09::part_one(&vec![Vex::new([1, 1]), Vex::new([1, 1])]), 0);
}

const MACHINES: &str = "[.##.] (3) (1,3) (2) (2,3) (0,2) (0,1) {3,5,4,7}\n[...#.] (0,2,3,4) (2,3) (0,4) (0,1,2) (1,2,3,4) {7,5,12,7,2}\n[.###.#] (0,1,2,3,4) (0,3,4) (0,1,2,4,5) (1,2) {10,11,11,5,10,5}";

#[test]
fn aoc10_test_one() {
    let points = aoc10::parse(MACHINES);
    let total = aoc10::part_one(&points);
    assert_eq!(total, 7);
}

#[test]
fn a_machine_is_read_from_its_line() {
    let machines = aoc10::parse("[.#x#] (1,,3) (a,2) {3,5}");
    assert_eq!(machines.len(), 1);
    assert_eq!(machines[0].target, vec![false, true, true]);
    assert_eq!(machines[0].buttons, vec![vec![1, 3], vec![2]]);
    assert_eq!(machines[0].joltage, vec![3, 5]);
}

#[test]
fn a_button_toggles_its_lights_in_turn() {
    assert_eq!(aoc10::toggle(&vec![false, true, false], &vec![0, 1, 1, 2]), vec![true, true, true]);
    let lazy = Machine { target: vec![false, false], buttons: vec![], joltage: vec![] };
    assert_eq!(aoc10::search_buttons(vec![false, true], &lazy), 0);
    let two = Machine { target: vec![true, true], buttons: vec![vec![0], vec![1]], joltage: vec![] };
    assert_eq!(aoc10::search_buttons(vec![false, false], &two), 2);
    assert_eq!(aoc10::search_buttons(vec![true, true], &two), 0);
}

const TREES: &str = "0:\n###\n##.\n##.\n\n1:\n###\n##.\n.##\n\n2:\n.##\n###\n##.\n\n3:\n##.\n###\n##.\n\n4:\n###\n#..\n###\n\n5:\n###\n.#.\n###\n\n4x4: 0 0 0 0 2 0\n12x5: 1 0 1 0 2 2\n12x5: 1 0 1 0 3 2";

#[test]
fn aoc12_test_one() {
    let presents = Presents::parse(TREES);
    let total = aoc12::part_one(&presents);
    assert_eq!(total, 3); // This is a lie
}

#[test]
fn presents_and_areas_are_read() {
    let presents = Presents::parse(TREES);
    assert_eq!(presents.presents.len(), 6);
    assert_eq!(presents.presents[4].dimensions(), (3, 3));
    assert_eq!(presents.presents[4].get(1, 1), Some(&Shape::No));
    assert_eq!(presents.presents[4].get(1, 0), Some(&Shape::Yes));
    assert_eq!(
        presents.areas,
        vec![
            (4, 4, vec![0, 0, 0, 0, 2, 0]),
            (12, 5, vec![1, 0, 1, 0, 2, 2]),
            (12, 5, vec![1, 0, 1, 0, 3, 2])
        ]
    );
    let tight = Presents { presents: vec![], areas: vec![(2, 7, vec![2]), (3, 5, vec![1, 1])] };
    assert_eq!(aoc12::part_one(&tight), 1);
}

#[test]
fn test_parsing() {
    let a: Turn = Turn::parse("R56").unwrap();
    assert_eq!(a.0, 56);

    let a: Turn = Turn::parse("L33").unwrap();
    assert_eq!(a.0, -33);

    let a: Turn = Turn::parse("L133").unwrap();
    assert_eq!(a.0, -133);

    let a: Result<Turn, _> = Turn::parse("Q3");
    assert!(a.is_err());
}

#[test]
fn test_multiples_between() {
    assert_eq!(multiples_of_100_between(101, 300), 2);
    assert_eq!(multiples_of_100_between(-101, 300), 5);
    assert_eq!(multiples_of_100_between(-1, 1), 1);
}

#[test]
fn a_turn_that_cannot_be_read_says_why() {
    assert_eq!(Turn::parse("R").err(), Some(TurnError::TooShort));
    assert_eq!(Turn::parse("Q3").err(), Some(TurnError::BadDirection));
    assert_eq!(Turn::parse("Rx").err(), Some(TurnError::BadNumber));
    assert_eq!(Turn::parse("L-9223372036854775808").err(), Some(TurnError::BadNumber));
    assert_eq!(Turn::parse("L-5").unwrap().0, 5);
    assert_eq!(multiples_of_100_between(100, 300), 2);
    assert_eq!(multiples_of_100_between(300, -300), 6);
    assert_eq!(multiples_of_100_between(50, 50), 0);
    assert_eq!(multiples_of_100_between(i64::MIN, i64::MAX), 184467440737095517);
}

#[test]
fn digits_said_over_and_over() {
    assert_eq!(aoc02::decimal(0), vec![0]);
    assert_eq!(aoc02::decimal(9070), vec![9, 0, 7, 0]);
    assert!(aoc02::is_invalid_id(1212));
    assert!(!aoc02::is_invalid_id(121));
    assert!(!aoc02::is_invalid_id(1213));
    assert!(aoc02::is_invalid_id2(121212));
    assert!(aoc02::is_invalid_id2(777));
    assert!(!aoc02::is_invalid_id2(7));
    assert!(!aoc02::is_invalid_id2(1231));
    assert_eq!(aoc02::sum_invalid(95, 115), 99 + 111);
    assert_eq!(aoc02::sum_invalid(11, 11), 11);
    assert_eq!(aoc02::sum_invalid(12, 11), 0);
}

const BOXES: &str = "162,817,812\n57,618,57\n906,360,560\n592,479,940\n352,342,300\n466,668,158\n542,29,236\n431,825,988\n739,650,466\n52,470,668\n216,146,977\n819,987,18\n117,168,530\n805,96,715\n346,949,466\n970,615,88\n941,993,340\n862,61,35\n984,92,344\n425,690,689";

#[test]
fn aoc08_test_one() {
    let graph = aoc08::parse_graph(BOXES).unwrap();
    let total = aoc08::part_one(&graph, 10);
    assert_eq!(total, 40);
}

#[test]
fn aoc08_test_two() {
    let graph = aoc08::parse_graph(BOXES).unwrap();
    let total = aoc08::part_two(&graph);
    assert_eq!(total, 25272);
}

#[test]
fn boxes_are_wired_to_what_is_near() {
    assert_eq!(aoc08::parse_graph("1,2,3\n4,5").err(), Some(aoc08::BoxError::BadLine(1)));
    let graph = aoc08::parse_graph("0,0,0\n1,0,0\n0,2,0\n9,9,9").unwrap();
    assert_eq!(graph.num_nodes(), 4);
    assert_eq!(graph.get_edge(0, 1), Some(&1));
    assert_eq!(graph.get_edge(0, 2), Some(&4));
    assert_eq!(graph.get_edge(1, 2), Some(&5));
    assert_eq!(graph.get_edge(0, 3), Some(&243));
    assert_eq!(graph.get_edge(2, 3), Some(&211));
}

#[test]
fn the_largest_circuits_whose_sizes_differ() {
    let mut g: Graph<(), ()> = Graph::new();
    for _ in 0..9 {
        g.add_node(());
    }
    // Circuits of 3, 2, 2, 1 and 1 boxes: the sizes are 3, 2 and 1.
    g.add_edge(0, 1, ());
    g.add_edge(1, 2, ());
    g.add_edge(3, 4, ());
    g.add_edge(5, 6, ());
    assert_eq!(aoc08::count_circuits(&g), 6);
    let empty: Graph<(), ()> = Graph::new();
    assert_eq!(aoc08::count_circuits(&empty), 1);
}

#[test]
fn aoc02_reads_ranges() {
    assert_eq!(
        aoc02::IdRange::parse("11-22"),
        Ok(aoc02::IdRange { min: 11, max: 22 })
    );
    assert_eq!(
        aoc02::IdRange::parse(" 5-7\n"),
        Ok(aoc02::IdRange { min: 5, max: 7 })
    );
    assert_eq!(
        aoc02::IdRange::parse("1122"),
        Err(aoc02::RangeError::NoRange)
    );
    assert_eq!(
        aoc02::IdRange::parse("1-x"),
        Err(aoc02::RangeError::BadNumber)
    );
    assert_eq!(
        aoc02::IdRange::parse("1-2-3"),
        Err(aoc02::RangeError::BadNumber)
    );
    assert_eq!(
        aoc02::IdRange::parse("-3"),
        Err(aoc02::RangeError::BadNumber)
    );
    let plain: Vec<char> = "7-9".chars().collect();
    assert_eq!(
        aoc02::IdRange::read(&plain),
        Ok(aoc02::IdRange { min: 7, max: 9 })
    );
    let spaced: Vec<char> = " 7-9".chars().collect();
    assert_eq!(aoc02::IdRange::read(&spaced), Err(aoc02::RangeError::BadNumber));
}

#[test]
fn aoc09_test_two() {
    let points = aoc09::parse(TILES);
    let total = aoc09::part_two(&points);
    assert_eq!(total, 24);
}

#[test]
fn aoc09_rectangles_within_the_outline() {
    // A single point is no rectangle.
    assert_eq!(aoc09::part_two(&vec![Vex::new([3, 4])]), 0);
    // Two points draw a line, which is a rectangle one tile wide.
    assert_eq!(aoc09::part_two(&vec![Vex::new([2, 5]), Vex::new([2, 9])]), 5);
    // The outline of a rectangle holds the whole of it.
    let square = vec![
        Vex::new([1, 1]),
        Vex::new([1, 10]),
        Vex::new([6, 10]),
        Vex::new([6, 1]),
    ];
    assert_eq!(aoc09::part_two(&square), 60);
    assert_eq!(aoc09::part_one(&square), 60);
    // An outline with a notch: the rectangle over the notch is the
    // largest of all and lies outside in part.
    let notched = vec![
        Vex::new([0, 0]),
        Vex::new([0, 10]),
        Vex::new([4, 10]),
        Vex::new([4, 6]),
        Vex::new([10, 6]),
        Vex::new([10, 0]),
    ];
    assert_eq!(aoc09::part_one(&notched), 121);
    assert_eq!(aoc09::part_two(&notched), 77);
}

#[test]
fn a_count_that_does_not_fit_is_not_given() {
    let inventory = Inventory::parse(INVENTORY).unwrap();
    assert_eq!(aoc05::try_part_two(inventory), Some(14));
    let all = Inventory { fresh: vec![(0, u64::MAX)], ids: vec![] };
    assert_eq!(aoc05::try_part_two(all), None);
    let most = Inventory { fresh: vec![(1, u64::MAX), (5, 9)], ids: vec![] };
    assert_eq!(aoc05::try_part_two(most), Some(usize::MAX));

    let manifold = Grid::from_str(MANIFOLD).unwrap();
    assert_eq!(aoc07::try_part_two(&manifold), Some(40));

    let sum = Problem { numbers: vec![1, 2, 3], operator: Operator::Plus };
    assert_eq!(sum.try_compute(), Some(6));
    let product = Problem { numbers: vec![4, 5, 6], operator: Operator::Times };
    assert_eq!(product.try_compute(), Some(120));
    let wide = Problem { numbers: vec![u64::MAX, 2], operator: Operator::Times };
    assert_eq!(wide.try_compute(), None);
    let long = Problem { numbers: vec![u64::MAX, 1], operator: Operator::Plus };
    assert_eq!(long.try_compute(), None);
}

#[test]
fn a_line_that_is_no_machine_is_not_read() {
    let machines = aoc10::try_parse(MACHINES).unwrap();
    assert_eq!(machines.len(), 3);
    assert_eq!(aoc10::part_one(&machines), 7);
    assert!(aoc10::try_parse("[.#] (0) {1}\n\n[#] (0) {2}").is_none());
    let short: Vec<char> = "[.#] ( {1}".chars().collect();
    assert!(Machine::try_parse_line(&short).is_none());
    let ends_short: Vec<char> = "[.#] (0) }".chars().collect();
    assert!(Machine::try_parse_line(&ends_short).is_none());
    let fine: Vec<char> = "  [.#]\t(1)   {4,2} ".chars().collect();
    let machine = Machine::try_parse_line(&fine).unwrap();
    assert_eq!(machine.target, vec![false, true]);
    assert_eq!(machine.buttons, vec![vec![1]]);
    assert_eq!(machine.joltage, vec![4, 2]);
}

fn name(text: &str) -> Vec<char> {
    text.chars().collect()
}

#[test]
fn hosts_are_read_with_their_outputs() {
    let hosts = aoc11::parse("aaa: you hhh\n you :bbb   ccc \neee: out\nend:").unwrap();
    assert_eq!(
        hosts,
        vec![
            Host { name: name("aaa"), outputs: vec![name("you"), name("hhh")] },
            Host { name: name("you"), outputs: vec![name("bbb"), name("ccc")] },
            Host { name: name("eee"), outputs: vec![name("out")] },
            Host { name: name("end"), outputs: vec![] },
        ]
    );
    assert_eq!(aoc11::parse(""), Ok(vec![]));
    assert_eq!(aoc11::parse("aaa: you\nbbb ccc"), Err(NetworkError::NoColon));
    assert_eq!(aoc11::parse("aaa: you\n\nbbb: ccc"), Err(NetworkError::NoColon));
    assert_eq!(aoc11::parse_host(&name("nothing")), None);
    assert_eq!(
        aoc11::parse_host(&name("a:b:c d")),
        Some(Host { name: name("a"), outputs: vec![name("b:c"), name("d")] })
    );
}

const NETWORK: &str = "aaa: you hhh\nyou: bbb ccc\nbbb: ddd eee\nccc: ddd eee fff\nddd: ggg\neee: out\nfff: out\nggg: out\nhhh: ccc fff iii\niii: out";

#[test]
fn aoc11_test_one() {
    let points = aoc11::parse(NETWORK).unwrap();
    let total = aoc11::part_one(&points);
    assert_eq!(total, 5);
}

#[test]
fn ways_are_counted_along_the_outputs() {
    // No host is named `you`: the walk ends at once.
    assert_eq!(aoc11::part_one(&aoc11::parse("aaa: out").unwrap()), 0);
    assert_eq!(aoc11::part_one(&vec![]), 0);
    // An output that is named twice counts twice.
    assert_eq!(aoc11::part_one(&aoc11::parse("you: out out a\na: out").unwrap()), 3);
    // The last line of a host is the one that counts.
    assert_eq!(aoc11::part_one(&aoc11::parse("you: out\nyou: a b\na: c").unwrap()), 0);
    assert_eq!(aoc11::part_one(&aoc11::parse("you: a b\na: c\nyou: out").unwrap()), 1);
    // A way ends at `out`, whatever `out` sends to.
    assert_eq!(aoc11::part_one(&aoc11::parse("you: out\nout: you").unwrap()), 1);
    // Two ways to each of two hosts, and from each of them one on.
    let diamond = "you: a b\na: c d\nb: c d\nc: out\nd: out";
    assert_eq!(aoc11::part_one(&aoc11::parse(diamond).unwrap()), 4);
}

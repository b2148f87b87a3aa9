use robozinho::agent::{
    check_next_destination, check_radius, check_requisitions, follow_path, h, move_agent, search_requisition,
    setup_agent_factories, update_agent_factories, valid, Agent, Simulation,
};
use robozinho::board::{setup_board, Board};
use robozinho::cell::Cell;
use robozinho::engine::{deliver, pick_up, target_valid};
use robozinho::explore::{explore, explore_weights};
use robozinho::factory::{spawn_factories, Factory};
use robozinho::input::{parse_token, read_factories, read_terrain, tokenize};
use robozinho::params::Params;
use robozinho::path::Path;
use robozinho::planner::find_path;
use robozinho::terrain::Terrain;
use robozinho::tool::{Tool, ToolType};

fn walk(start: (usize, usize), moves: &[(i32, i32)]) -> Vec<(usize, usize)> {
    let mut cells = vec![];
    let (mut x, mut y) = (start.0 as i64, start.1 as i64);
    for (dx, dy) in moves {
        x += *dx as i64;
        y += *dy as i64;
        cells.push((x as usize, y as usize));
    }
    cells
}

fn route_cost(board: &Board, start: (usize, usize), moves: &[(i32, i32)]) -> u64 {
    walk(start, moves).iter().map(|(x, y)| board.get(*x, *y).terrain.cost().unwrap()).sum()
}

fn tick(sim: &mut Simulation) {
    if sim.path.moves.is_empty() {
        move_agent(sim);
    } else {
        follow_path(sim);
    }
}

fn scenario_a() -> Simulation {
    let mut board = Board::new(3, 3);
    assert!(board.place_tool(0, 0, ToolType::Battery));
    let factory = Factory::new(2, 2, Some(ToolType::Battery), 1);
    assert!(board.place_factory(factory));
    let mut agent = Agent::new(1, 1, 2);
    setup_agent_factories(&mut agent, &vec![factory]);
    let tools = vec![Tool::new(0, 0, Some(ToolType::Battery))];
    Simulation::new(board, agent, tools)
}

#[test]
fn it_works() {
    let result = 2 + 2;
    assert_eq!(result, 4);
}

#[test]
fn scenario_collect_and_deliver() {
    let mut sim = scenario_a();
    move_agent(&mut sim);
    assert_eq!(sim.path.moves.len(), 2);
    assert_eq!(walk((1, 1), &sim.path.moves).last(), Some(&(0, 0)));
    assert!(sim.agent.destination_queue.is_empty());
    follow_path(&mut sim);
    follow_path(&mut sim);
    assert_eq!(sim.agent.position(), (0, 0));
    assert_eq!(sim.agent.total_cost(), 2);
    assert_eq!(sim.agent.held(ToolType::Battery), 1);
    assert_eq!(sim.board.get(0, 0).tool, None);
    assert_eq!(sim.tools[0].tool_type, None);
    // sensing on the way queued the tool cell again; it is stale by now
    assert_eq!(sim.agent.destination_queue, vec![(0, 0)]);
    move_agent(&mut sim);
    assert!(sim.path.moves.is_empty());
    assert_eq!(sim.agent.destination_queue, vec![(2, 2)]);
    assert_eq!(sim.agent.position(), (0, 0));
    move_agent(&mut sim);
    assert_eq!(sim.path.moves.len(), 4);
    assert_eq!(walk((0, 0), &sim.path.moves).last(), Some(&(2, 2)));
    for _ in 0..4 {
        follow_path(&mut sim);
    }
    assert_eq!(sim.agent.position(), (2, 2));
    assert_eq!(sim.agent.held(ToolType::Battery), 0);
    assert_eq!(sim.board.get(2, 2).factory, Some(Factory::new(2, 2, None, 0)));
    assert_eq!(sim.agent.requisitions[0], Factory::new(2, 2, None, 0));
    assert!(!sim.agent.has_ended());
    move_agent(&mut sim);
    assert!(sim.agent.has_ended());
    assert_eq!(sim.agent.total_cost(), 6);
    assert_eq!(sim.agent.last_move, (0, 0));
    let before = sim.agent.position();
    for _ in 0..5 {
        tick(&mut sim);
    }
    assert_eq!(sim.agent.position(), before);
    assert_eq!(sim.agent.total_cost(), 6);
    assert!(sim.path.moves.is_empty());
}

#[test]
fn scenario_stale_destination_is_discarded() {
    let mut sim = scenario_a();
    check_radius(&sim.board, 1, 1, 2, &mut sim.agent.destination_queue, &sim.agent.requisitions);
    assert_eq!(sim.agent.destination_queue, vec![(0, 0)]);
    // the tool is taken away by someone else before the agent gets there
    sim.board.cells[0][0].tool = None;
    move_agent(&mut sim);
    assert!(sim.path.moves.is_empty());
    assert!(sim.agent.destination_queue.is_empty());
    assert_eq!(sim.agent.position(), (1, 1));
    assert_eq!(sim.agent.total_cost(), 0);
    assert_eq!(sim.agent.expansion_count(), 0);
}

fn walled_board() -> Board {
    let mut board = Board::new(3, 3);
    for x in 0..3 {
        board.set_terrain(x, 1, Terrain::Obstacle);
    }
    board
}

#[test]
fn scenario_goal_behind_wall() {
    let mut board = walled_board();
    assert!(board.place_tool(1, 2, ToolType::Battery));
    let factory = Factory::new(0, 0, Some(ToolType::Battery), 1);
    assert!(board.place_factory(factory));
    let mut agent = Agent::new(1, 0, 2);
    setup_agent_factories(&mut agent, &vec![factory]);
    let mut sim = Simulation::new(board, agent, vec![Tool::new(1, 2, Some(ToolType::Battery))]);
    move_agent(&mut sim);
    assert_eq!(sim.path.moves, vec![(0, 0)]);
    assert!(sim.agent.expansion_count() > 0);
    follow_path(&mut sim);
    assert!(sim.path.moves.is_empty());
    assert_eq!(sim.agent.position(), (1, 0));
    assert_eq!(sim.agent.total_cost(), 0);
}

#[test]
fn planner_reports_unreachable_goal() {
    let board = walled_board();
    let mut expansions: usize = 0;
    assert_eq!(find_path(&board, (1, 0), (1, 2), &mut expansions), None);
    assert_eq!(expansions, 3);
}

#[test]
fn planner_goes_round_costly_terrain() {
    let mut board = Board::new(3, 3);
    board.set_terrain(1, 1, Terrain::Desert);
    let mut expansions: usize = 0;
    let moves = find_path(&board, (1, 0), (1, 2), &mut expansions).unwrap();
    assert_eq!(moves.len(), 4);
    let cells = walk((1, 0), &moves);
    assert!(!cells.contains(&(1, 1)));
    assert_eq!(cells.last(), Some(&(1, 2)));
    assert_eq!(route_cost(&board, (1, 0), &moves), 4);
}

#[test]
fn planner_crosses_cheapest_terrain() {
    let mut board = Board::new(4, 1);
    board.set_terrain(0, 1, Terrain::Mountain);
    board.set_terrain(0, 2, Terrain::Swamp);
    let mut expansions: usize = 0;
    let moves = find_path(&board, (0, 0), (0, 3), &mut expansions).unwrap();
    assert_eq!(moves, vec![(0, 1), (0, 1), (0, 1)]);
    assert_eq!(route_cost(&board, (0, 0), &moves), 16);
}

#[test]
fn planner_never_enters_obstacles() {
    let mut board = Board::new(6, 6);
    let walls = [(1, 1), (1, 2), (1, 3), (2, 3), (3, 3), (4, 1), (4, 2), (3, 0), (0, 4), (5, 4)];
    for (x, y) in walls {
        board.set_terrain(x, y, Terrain::Obstacle);
    }
    board.set_terrain(2, 1, Terrain::Swamp);
    for sx in 0..6 {
        for sy in 0..6 {
            for gx in 0..6 {
                for gy in 0..6 {
                    let mut expansions: usize = 0;
                    if let Some(moves) = find_path(&board, (sx, sy), (gx, gy), &mut expansions) {
                        let cells = walk((sx, sy), &moves);
                        for (x, y) in &cells {
                            assert!(board.get(*x, *y).terrain != Terrain::Obstacle);
                        }
                        if !moves.is_empty() {
                            assert_eq!(cells.last(), Some(&(gx, gy)));
                        }
                    }
                }
            }
        }
    }
}

#[test]
fn planner_start_is_goal() {
    let board = Board::new(2, 2);
    let mut expansions: usize = 0;
    assert_eq!(find_path(&board, (1, 1), (1, 1), &mut expansions), Some(vec![]));
    assert_eq!(expansions, 0);
}

#[test]
fn explorer_keeps_moving() {
    let mut board = Board::new(5, 5);
    let factory = Factory::new(4, 4, Some(ToolType::Battery), 1);
    assert!(board.place_factory(factory));
    let mut agent = Agent::new(2, 2, 1);
    setup_agent_factories(&mut agent, &vec![factory]);
    let mut sim = Simulation::new(board, agent, vec![]);
    for _ in 0..30 {
        let before = sim.agent.position();
        let forbidden = sim.agent.last_move;
        let cost = sim.agent.total_cost();
        move_agent(&mut sim);
        let after = sim.agent.position();
        assert_ne!(after, before);
        let dx = after.0 as i32 - before.0 as i32;
        let dy = after.1 as i32 - before.1 as i32;
        assert_eq!(dx.abs() + dy.abs(), 1);
        assert_ne!((dx, dy), forbidden);
        assert_eq!(sim.agent.last_move, (-dx, -dy));
        assert_eq!(sim.agent.total_cost(), cost + 1);
        assert!(sim.path.moves.is_empty());
    }
}

#[test]
fn explorer_never_reverses() {
    // a corridor: from (0, 1) the only ways are back to (0, 0) or on to (0, 2)
    let mut board = Board::new(3, 2);
    board.set_terrain(1, 0, Terrain::Obstacle);
    board.set_terrain(1, 1, Terrain::Obstacle);
    board.set_terrain(1, 2, Terrain::Obstacle);
    let mut agent = Agent::new(0, 1, 0);
    for _ in 0..20 {
        agent.x = 0;
        agent.y = 1;
        agent.last_move = (0, -1);
        assert!(explore(&mut agent, &board));
        assert_eq!(agent.position(), (0, 2));
        assert_eq!(agent.last_move, (0, -1));
    }
}

#[test]
fn explorer_stuck_stays() {
    let mut board = Board::new(2, 1);
    board.set_terrain(0, 1, Terrain::Obstacle);
    let mut agent = Agent::new(0, 0, 1);
    assert!(!explore(&mut agent, &board));
    assert_eq!(agent.position(), (0, 0));
    assert_eq!(agent.total_cost(), 0);
    // the only way out is the reverse of the last step
    let board = Board::new(2, 1);
    agent.last_move = (0, 1);
    assert!(!explore(&mut agent, &board));
    assert_eq!(agent.position(), (0, 0));
}

#[test]
fn explore_weights_follow_terrain() {
    let mut board = Board::new(3, 3);
    board.set_terrain(2, 1, Terrain::Mountain);
    board.set_terrain(1, 2, Terrain::Swamp);
    board.set_terrain(0, 1, Terrain::Desert);
    board.set_terrain(1, 0, Terrain::Obstacle);
    assert_eq!(explore_weights(&board, 1, 1, (0, 0)), vec![4, 2, 1, 0]);
    assert_eq!(explore_weights(&board, 1, 1, (1, 0)), vec![0, 2, 1, 0]);
    assert_eq!(explore_weights(&board, 0, 0, (0, 0)), vec![0, 1, 0, 0]);
    assert_eq!(explore_weights(&board, 2, 2, (0, 0)), vec![0, 0, 2, 4]);
}

#[test]
fn sensing_queues_requested_tools_once() {
    let mut board = Board::new(5, 5);
    assert!(board.place_tool(0, 0, ToolType::Battery));
    assert!(board.place_tool(4, 4, ToolType::Battery));
    assert!(board.place_tool(2, 3, ToolType::WeldingArm));
    assert!(board.place_tool(3, 1, ToolType::Battery));
    let reqs = vec![Factory::new(0, 4, Some(ToolType::Battery), 2)];
    let mut queue = vec![(3, 1)];
    check_radius(&board, 1, 1, 2, &mut queue, &reqs);
    assert_eq!(queue, vec![(3, 1), (0, 0)]);
    check_radius(&board, 1, 1, 2, &mut queue, &reqs);
    assert_eq!(queue, vec![(3, 1), (0, 0)]);
    check_radius(&board, 4, 4, 0, &mut queue, &reqs);
    assert_eq!(queue, vec![(3, 1), (0, 0), (4, 4)]);
    let mut none = vec![];
    check_radius(&board, 2, 2, 5, &mut none, &vec![]);
    assert!(none.is_empty());
}

#[test]
fn sensing_scans_row_by_row() {
    let mut board = Board::new(3, 3);
    assert!(board.place_tool(2, 0, ToolType::Battery));
    assert!(board.place_tool(0, 2, ToolType::Battery));
    assert!(board.place_tool(1, 0, ToolType::Battery));
    let reqs = vec![Factory::new(2, 2, Some(ToolType::Battery), 1)];
    let mut queue = vec![];
    check_radius(&board, 1, 1, 1, &mut queue, &reqs);
    assert_eq!(queue, vec![(0, 2), (1, 0), (2, 0)]);
}

#[test]
fn matcher_queues_deliverable_factories() {
    let mut agent = Agent::new(0, 0, 1);
    setup_agent_factories(
        &mut agent,
        &vec![
            Factory::new(1, 1, Some(ToolType::Battery), 2),
            Factory::new(2, 2, Some(ToolType::SuctionPump), 1),
            Factory::new(3, 3, None, 0),
        ],
    );
    assert!(!check_requisitions(&mut agent));
    assert!(agent.destination_queue.is_empty());
    agent.inventory[0] = 2;
    assert!(!check_requisitions(&mut agent));
    assert_eq!(agent.destination_queue, vec![(1, 1)]);
    agent.inventory[2] = 5;
    assert!(!check_requisitions(&mut agent));
    assert_eq!(agent.destination_queue, vec![(1, 1), (2, 2)]);
    agent.requisitions[0].needed_tool = None;
    agent.requisitions[1].needed_tool = None;
    assert!(check_requisitions(&mut agent));
    let mut empty = Agent::new(0, 0, 1);
    assert!(check_requisitions(&mut empty));
}

#[test]
fn selector_picks_nearest_first() {
    let mut agent = Agent::new(2, 2, 1);
    agent.destination_queue = vec![(0, 0), (2, 4), (4, 2), (3, 3), (1, 2)];
    assert_eq!(check_next_destination(&agent), 4);
    agent.destination_queue = vec![(0, 0), (2, 4), (4, 2)];
    assert_eq!(check_next_destination(&agent), 1);
}

#[test]
fn delivery_takes_exact_quantity() {
    let mut agent = Agent::new(0, 0, 1);
    setup_agent_factories(
        &mut agent,
        &vec![Factory::new(1, 1, Some(ToolType::CoolingDevice), 3), Factory::new(2, 2, Some(ToolType::Battery), 1)],
    );
    agent.destination_queue = vec![(2, 2), (1, 1)];
    agent.inventory[3] = 2;
    let f = agent.requisitions[0];
    assert!(!deliver(&mut agent, f));
    assert_eq!(agent.held(ToolType::CoolingDevice), 2);
    agent.inventory[3] = 5;
    assert!(deliver(&mut agent, f));
    assert_eq!(agent.held(ToolType::CoolingDevice), 2);
    assert_eq!(agent.requisitions[0], Factory::new(1, 1, None, 0));
    assert_eq!(agent.requisitions[1], Factory::new(2, 2, Some(ToolType::Battery), 1));
    assert_eq!(agent.destination_queue, vec![(2, 2)]);
    assert!(!deliver(&mut agent, Factory::new(1, 1, None, 0)));
    agent.inventory[3] = 3;
    assert!(deliver(&mut agent, f));
    assert_eq!(agent.held(ToolType::CoolingDevice), 0);
}

#[test]
fn pickup_clears_cell_and_records() {
    let mut board = Board::new(2, 2);
    assert!(board.place_tool(1, 0, ToolType::PneumaticArm));
    let agent = Agent::new(0, 0, 1);
    let tools = vec![Tool::new(1, 0, Some(ToolType::PneumaticArm)), Tool::new(0, 1, Some(ToolType::Battery))];
    let mut sim = Simulation::new(board, agent, tools);
    assert_eq!(pick_up(&mut sim, 1, 0), Some(ToolType::PneumaticArm));
    assert_eq!(sim.agent.held(ToolType::PneumaticArm), 1);
    assert_eq!(sim.board.get(1, 0).tool, None);
    assert_eq!(sim.tools[0].tool_type, None);
    assert_eq!(sim.tools[1].tool_type, Some(ToolType::Battery));
    assert_eq!(pick_up(&mut sim, 1, 0), None);
    assert_eq!(sim.agent.held(ToolType::PneumaticArm), 1);
}

#[test]
fn validity_check() {
    let mut board = Board::new(3, 1);
    assert!(board.place_tool(0, 0, ToolType::Battery));
    assert!(board.place_factory(Factory::new(0, 1, Some(ToolType::Battery), 1)));
    assert!(board.place_factory(Factory::new(0, 2, None, 0)));
    let reqs = vec![Factory::new(0, 1, Some(ToolType::Battery), 1)];
    assert!(target_valid(&board, &reqs, 0, 0));
    assert!(!target_valid(&board, &vec![], 0, 0));
    assert!(target_valid(&board, &reqs, 0, 1));
    assert!(!target_valid(&board, &reqs, 0, 2));
    let empty = Board::new(1, 1);
    assert!(!target_valid(&empty, &reqs, 0, 0));
}

#[test]
fn requisition_search() {
    let reqs = vec![Factory::new(0, 0, Some(ToolType::WeldingArm), 1), Factory::new(1, 1, None, 0)];
    assert!(search_requisition(ToolType::WeldingArm, &reqs));
    assert!(!search_requisition(ToolType::Battery, &reqs));
    assert!(!search_requisition(ToolType::Battery, &vec![]));
}

#[test]
fn factories_follow_agent_list() {
    let mut agent = Agent::new(0, 0, 1);
    setup_agent_factories(&mut agent, &vec![Factory::new(1, 1, None, 0)]);
    let mut factories = vec![Factory::new(1, 1, Some(ToolType::Battery), 4), Factory::new(2, 2, Some(ToolType::Battery), 1)];
    update_agent_factories(&agent, &mut factories);
    assert_eq!(factories[0], Factory::new(1, 1, None, 0));
    assert_eq!(factories[1], Factory::new(2, 2, Some(ToolType::Battery), 1));
}

#[test]
fn distance_and_bounds() {
    assert_eq!(h((0, 0), (3, 4)), 7);
    assert_eq!(h((5, 1), (2, 6)), 8);
    assert_eq!(h((2, 2), (2, 2)), 0);
    assert!(valid(0, 0, 3, 2));
    assert!(valid(2, 1, 3, 2));
    assert!(!valid(3, 0, 3, 2));
    assert!(!valid(0, 2, 3, 2));
    assert!(!valid(-1, 0, 3, 2));
    assert!(!valid(0, -1, 3, 2));
}

#[test]
fn terrain_costs_and_weights() {
    assert_eq!(Terrain::Grass.cost(), Some(1));
    assert_eq!(Terrain::Mountain.cost(), Some(5));
    assert_eq!(Terrain::Swamp.cost(), Some(10));
    assert_eq!(Terrain::Desert.cost(), Some(20));
    assert_eq!(Terrain::Obstacle.cost(), None);
    assert_eq!(Terrain::Grass.weight(), 20);
    assert_eq!(Terrain::Mountain.weight(), 4);
    assert_eq!(Terrain::Swamp.weight(), 2);
    assert_eq!(Terrain::Desert.weight(), 1);
    assert_eq!(Terrain::Obstacle.weight(), 0);
}

#[test]
fn board_setup_rules() {
    let mut board = Board::new(4, 2);
    assert_eq!(board.cells.len(), 2);
    assert_eq!(board.cells[0].len(), 4);
    assert_eq!(board.get(1, 3), Cell::new(Terrain::Grass, None, None));
    board.set_terrain(0, 0, Terrain::Swamp);
    assert!(!board.place_tool(0, 0, ToolType::Battery));
    assert!(board.place_tool(0, 1, ToolType::Battery));
    assert!(!board.place_tool(0, 1, ToolType::WeldingArm));
    assert!(!board.place_factory(Factory::new(0, 1, Some(ToolType::Battery), 1)));
    assert!(board.place_factory(Factory::new(0, 0, Some(ToolType::Battery), 1)));
    assert!(!board.place_factory(Factory::new(0, 0, Some(ToolType::WeldingArm), 1)));
    board.set_terrain(1, 0, Terrain::Obstacle);
    assert!(!board.place_factory(Factory::new(1, 0, Some(ToolType::Battery), 1)));
    assert!(!board.is_free(1, 0));
    assert!(board.is_free(1, 1));
    assert!(!board.is_free(0, 0));
    let default = Board::default();
    assert_eq!((default.width, default.height), (42, 42));
    assert_eq!(Cell::default(), Cell::new(Terrain::Grass, None, None));
}

#[test]
fn fresh_values() {
    assert!(Path::new().moves.is_empty());
    assert!(Path::default().moves.is_empty());
    let agent = Agent::new(3, 4, 2);
    assert_eq!(agent.position(), (3, 4));
    assert_eq!(agent.inventory, vec![0; 5]);
    assert_eq!(agent.expansion_count(), 0);
    let params = Params::new(vec![(ToolType::Battery, 3)], vec![(ToolType::Battery, 1)], 4, 1, 0, 2);
    assert_eq!(params.agent_radius, 4);
    assert_eq!(params.items_quantity, vec![(ToolType::Battery, 3)]);
    assert_eq!(ToolType::PneumaticArm.index(), 4);
    assert_eq!(Tool::new(1, 2, None).y, 2);
}

fn chars(s: &str) -> Vec<char> {
    s.chars().collect()
}

fn strings(lines: Vec<Vec<Vec<char>>>) -> Vec<Vec<String>> {
    lines.into_iter().map(|l| l.into_iter().map(|t| t.into_iter().collect()).collect()).collect()
}

#[test]
fn text_is_cut_into_lines_and_tokens() {
    assert_eq!(
        strings(tokenize(&chars("1 2\n 30\t4\r\n\n5"))),
        vec![vec!["1", "2"], vec!["30", "4"], vec![], vec!["5"]]
    );
    assert_eq!(strings(tokenize(&chars(""))), vec![Vec::<String>::new()]);
    assert_eq!(strings(tokenize(&chars("7\n"))), vec![vec!["7".to_string()], vec![]]);
    assert_eq!(strings(tokenize(&chars("a\u{a0}b\u{3000}c\u{2003}d"))), vec![vec!["a", "b", "c", "d"]]);
}

#[test]
fn tokens_read_as_numbers() {
    assert_eq!(parse_token(&chars("42")), Some(42));
    assert_eq!(parse_token(&chars("+7")), Some(7));
    assert_eq!(parse_token(&chars("007")), Some(7));
    assert_eq!(parse_token(&chars("+")), None);
    assert_eq!(parse_token(&chars("")), None);
    assert_eq!(parse_token(&chars("-1")), None);
    assert_eq!(parse_token(&chars("1+2")), None);
    assert_eq!(parse_token(&chars("x")), None);
    assert_eq!(parse_token(&chars("18446744073709551615")), Some(usize::MAX));
    assert_eq!(parse_token(&chars("18446744073709551616")), None);
    for t in ["0", "+12", "99999", "12a", "+-3", "\u{663}"] {
        assert_eq!(parse_token(&chars(t)), t.parse::<usize>().ok());
    }
}

#[test]
fn terrain_file_is_read() {
    let rows = read_terrain(&chars("0 1 2\n3 +4 9")).unwrap();
    assert_eq!(
        rows,
        vec![
            vec![Terrain::Grass, Terrain::Mountain, Terrain::Swamp],
            vec![Terrain::Desert, Terrain::Obstacle, Terrain::Grass]
        ]
    );
    assert_eq!(read_terrain(&chars("0\u{a0}1")).unwrap(), vec![vec![Terrain::Grass, Terrain::Mountain]]);
    assert_eq!(read_terrain(&chars("0 a")), None);
}

#[test]
fn positions_file_is_read() {
    assert_eq!(read_factories(&chars("1 2\n3 4\n5\n6 7\n")), Some(vec![(1, 2), (3, 4)]));
    assert_eq!(read_factories(&chars("1 2\n+3 4\n")), Some(vec![(1, 2), (3, 4)]));
    assert_eq!(read_factories(&chars("1 2 3")), Some(vec![]));
    assert_eq!(read_factories(&chars("1 2\nend\nx y z\n")), Some(vec![(1, 2)]));
    assert_eq!(read_factories(&chars("1 2\nx y\n")), None);
}

#[test]
fn board_from_terrain_turns_rows() {
    let rows = read_terrain(&chars("0 1\n2 3")).unwrap();
    let board = setup_board(&rows, 2, 2).unwrap();
    // cell (x, y) takes rows[height - 1 - y][x]
    assert_eq!(board.get(0, 0).terrain, Terrain::Swamp);
    assert_eq!(board.get(1, 0).terrain, Terrain::Desert);
    assert_eq!(board.get(0, 1).terrain, Terrain::Grass);
    assert_eq!(board.get(1, 1).terrain, Terrain::Mountain);
    assert!(setup_board(&rows, 3, 2).is_none());
    assert!(setup_board(&rows, 2, 3).is_none());
}

#[test]
fn factories_take_first_free_spots() {
    let mut board = Board::new(3, 3);
    board.set_terrain(0, 0, Terrain::Obstacle);
    assert!(board.place_tool(1, 1, ToolType::Battery));
    let needs = vec![(ToolType::Battery, 2), (ToolType::WeldingArm, 1)];
    let positions = vec![(0, 0), (9, 9), (1, 1), (2, 2), (2, 2), (0, 1), (1, 2)];
    let fs = spawn_factories(&mut board, &needs, &positions).unwrap();
    assert_eq!(fs, vec![Factory::new(2, 2, Some(ToolType::Battery), 2), Factory::new(0, 1, Some(ToolType::WeldingArm), 1)]);
    assert_eq!(board.get(2, 2).factory, Some(fs[0]));
    assert_eq!(board.get(0, 1).factory, Some(fs[1]));
    assert_eq!(board.get(1, 2).factory, None);
    let mut other = Board::new(2, 1);
    assert_eq!(spawn_factories(&mut other, &needs, &vec![(0, 0), (0, 0)]), None);
    assert_eq!(other.get(0, 0).factory, None);
}

use traffic_sim::command::{parse, Command};
use traffic_sim::simulation::stopline::{Conflict, Priority};
use traffic_sim::simulation::{SimError, Simulation, StopLineType, TrafficLightState};

const M: i64 = 1_000_000;

fn run(sim: &mut Simulation, text: &str) -> Result<usize, SimError> {
    let command = parse(text)?;
    sim.execute(command).map(|frames| frames.len())
}

fn quantity(text: &str) -> Option<i64> {
    match parse(&format!("start {}", text)) {
        Ok(Command::Start { delta }) => Some(delta),
        _ => None,
    }
}

#[test]
fn quantities_are_read_to_the_millionth() {
    assert_eq!(quantity("0"), Some(0));
    assert_eq!(quantity("0.1"), Some(100_000));
    assert_eq!(quantity("4.6"), Some(4_600_000));
    assert_eq!(quantity("-2.5"), Some(-2_500_000));
    assert_eq!(quantity("1000"), Some(1000 * M));
    assert_eq!(quantity("12.345678"), Some(12_345_678));
    assert_eq!(quantity("12.3456789"), Some(12_345_678));
    assert_eq!(quantity("-0.0000019"), Some(-1));
    assert_eq!(quantity("007.5"), Some(7_500_000));
    assert_eq!(quantity("5."), Some(5 * M));
    assert_eq!(quantity("-0"), Some(0));
}

#[test]
fn quantities_beyond_the_range_are_clamped() {
    assert_eq!(quantity("9223372036854.775807"), Some(i64::MAX));
    assert_eq!(quantity("9223372036854.775806"), Some(i64::MAX - 1));
    assert_eq!(quantity("9223372036854.775808"), Some(i64::MAX));
    assert_eq!(quantity("-9223372036854.775808"), Some(i64::MIN));
    assert_eq!(quantity("-9223372036854.775807"), Some(i64::MIN + 1));
    assert_eq!(quantity("-9223372036854.775809"), Some(i64::MIN));
    assert_eq!(quantity("99999999999999999999999999999999999999999999"), Some(i64::MAX));
    assert_eq!(quantity("-99999999999999999999999999999999999999999999.5"), Some(i64::MIN));
    assert_eq!(quantity("10000000000000"), Some(i64::MAX));
    assert_eq!(quantity("9999999999999.999999"), Some(i64::MAX));
    assert_eq!(quantity("999999999999.999999"), Some(999_999_999_999_999_999));
}

#[test]
fn what_is_no_decimal_number_is_no_quantity() {
    for text in [
        "", "-", "+", ".", "-.", "+-1", "--1", "1-", "1,5", "1.5.2", "0x10", "NaN", "nan", "1 ",
        "e5", ".e5", "-e5", "1e", "1e+", "1e-", "1e1.5", "1e5e5", "1e+-5", "1.5f",
    ] {
        assert_eq!(quantity(text), None, "{:?}", text);
    }
}

#[test]
fn a_quantity_may_have_a_sign_and_may_lack_its_whole_part() {
    assert_eq!(quantity("+1"), Some(M));
    assert_eq!(quantity("+1.5"), Some(1_500_000));
    assert_eq!(quantity("+0"), Some(0));
    assert_eq!(quantity(".5"), Some(500_000));
    assert_eq!(quantity("-.5"), Some(-500_000));
    assert_eq!(quantity("+.25"), Some(250_000));
    assert_eq!(quantity(".0000019"), Some(1));
}

#[test]
fn a_quantity_without_limit_is_written_as_a_word() {
    assert_eq!(quantity("inf"), Some(i64::MAX));
    assert_eq!(quantity("+inf"), Some(i64::MAX));
    assert_eq!(quantity("-inf"), Some(i64::MIN));
    assert_eq!(quantity("infinity"), Some(i64::MAX));
    assert_eq!(quantity("-Infinity"), Some(i64::MIN));
    assert_eq!(quantity("INF"), Some(i64::MAX));
    for text in ["in", "infi", "infinit", "infinityy", "inf.0", "infe5", "1inf", "i", "-", "+-inf"] {
        assert_eq!(quantity(text), None, "{:?}", text);
    }
}

#[test]
fn a_quantity_may_have_an_exponent() {
    assert_eq!(quantity("1e3"), Some(1000 * M));
    assert_eq!(quantity("1E3"), Some(1000 * M));
    assert_eq!(quantity("1e+2"), Some(100 * M));
    assert_eq!(quantity("1e05"), Some(100_000 * M));
    assert_eq!(quantity("1.5e2"), Some(150 * M));
    assert_eq!(quantity("1.5e-2"), Some(15_000));
    assert_eq!(quantity("-2.5E-1"), Some(-250_000));
    assert_eq!(quantity("5.e1"), Some(50 * M));
    assert_eq!(quantity(".5e1"), Some(5 * M));
    assert_eq!(quantity("123456e-3"), Some(123_456_000));
    assert_eq!(quantity("0.000001e6"), Some(M));
    assert_eq!(quantity("12.3456789e1"), Some(123_456_789));
    assert_eq!(quantity("12.3456789e-1"), Some(1_234_567));
    assert_eq!(quantity("1e0"), Some(M));
    assert_eq!(quantity("1e-0"), Some(M));
}

#[test]
fn small_and_large_exponents_end_at_zero_and_at_the_ends_of_the_range() {
    assert_eq!(quantity("1e-6"), Some(1));
    assert_eq!(quantity("1e-7"), Some(0));
    assert_eq!(quantity("-1e-7"), Some(0));
    assert_eq!(quantity("9.99e-7"), Some(0));
    assert_eq!(quantity("1e12"), Some(1_000_000_000_000_000_000));
    assert_eq!(quantity("1e13"), Some(i64::MAX));
    assert_eq!(quantity("-1e13"), Some(i64::MIN));
    assert_eq!(quantity("9223372036854775807e-6"), Some(i64::MAX));
    assert_eq!(quantity("9223372036854775806e-6"), Some(i64::MAX - 1));
    assert_eq!(quantity("-9223372036854775808e-6"), Some(i64::MIN));
    assert_eq!(quantity("-9223372036854775807e-6"), Some(i64::MIN + 1));
    assert_eq!(quantity("0e99999999999999999999999999"), Some(0));
    assert_eq!(quantity("0.000e99999999999999999999999999"), Some(0));
    assert_eq!(quantity("1e99999999999999999999999999"), Some(i64::MAX));
    assert_eq!(quantity("-0.001e99999999999999999999999999"), Some(i64::MIN));
    assert_eq!(quantity("1e-99999999999999999999999999"), Some(0));
    assert_eq!(quantity("123456789e-99999999999999999999999999"), Some(0));
    assert_eq!(quantity("0.00000000000000000000001e30"), Some(10_000_000 * M));
    assert_eq!(quantity("100000000000000000000000000000e-30"), Some(100_000));
}

#[test]
fn start_begins_anew() {
    let mut sim = Simulation::new(M);
    assert_eq!(run(&mut sim, "link 0 100 0,0 25"), Ok(0));
    assert_eq!(run(&mut sim, "step 3"), Ok(3));
    assert_eq!(run(&mut sim, "start 0.1"), Ok(0));
    assert_eq!(sim.get_step(), 0);
    assert!(sim.get_link(0).is_none());
}

#[test]
fn start_wants_a_tick_that_takes_time() {
    let mut sim = Simulation::new(M);
    assert_eq!(run(&mut sim, "link 0 100 0,0 25"), Ok(0));
    assert_eq!(run(&mut sim, "step 3"), Ok(3));
    assert_eq!(run(&mut sim, "start 0"), Err(SimError::InvalidConfig));
    assert_eq!(run(&mut sim, "start -0.1"), Err(SimError::InvalidConfig));
    // the simulation is as it was
    assert_eq!(sim.get_step(), 3);
    assert!(sim.get_link(0).is_some());
    assert_eq!(run(&mut sim, "start 0.000001"), Ok(0));
    assert_eq!(sim.get_step(), 0);
}

#[test]
fn link_adds_a_link_with_its_lanes() {
    let mut sim = Simulation::new(M);
    assert_eq!(run(&mut sim, "link 3 100.5 0,0;3,4.5 13.9"), Ok(0));
    let link = sim.get_link(3).unwrap();
    assert_eq!((link.id, link.length, link.speed_limit), (3, 100_500_000, 13_900_000));
    assert_eq!(link.lanes.len(), 2);
    assert_eq!(link.get_lat(0, 50 * M), 0);
    assert_eq!(link.get_lat(1, 0), 3 * M);
    assert_eq!(link.get_lat(1, 100_500_000), 4_500_000);
    assert_eq!(link.lanes[1].dist.get_y(40 * M), 40 * M);
}

#[test]
fn link_is_turned_down_as_a_whole() {
    let mut sim = Simulation::new(M);
    assert_eq!(run(&mut sim, "link 0 0 0,0 25"), Err(SimError::InvalidConfig));
    assert_eq!(run(&mut sim, "link 0 -1 0,0 25"), Err(SimError::InvalidConfig));
    assert_eq!(run(&mut sim, "link 0 100 0,0 0"), Err(SimError::InvalidConfig));
    assert!(sim.get_link(0).is_none());
    assert_eq!(run(&mut sim, "link 0 100 0,0 25"), Ok(0));
    assert_eq!(run(&mut sim, "link 0 100 0,0;3,3 25"), Err(SimError::InvalidConfig));
    assert_eq!(sim.get_link(0).unwrap().lanes.len(), 1);
    let none = Command::Link { id: 1, length: 100 * M, lanes: vec![], speed_limit: 25 * M };
    assert_eq!(sim.execute(none).map(|f| f.len()), Err(SimError::InvalidConfig));
    assert!(sim.get_link(1).is_none());
}

#[test]
fn conn_connects_two_links() {
    let mut sim = Simulation::new(M);
    assert_eq!(run(&mut sim, "link 0 100 0,0;3,3 25"), Ok(0));
    assert_eq!(run(&mut sim, "link 1 100 0,0;3,3 25"), Ok(0));
    assert_eq!(run(&mut sim, "conn 0 1 0:0;1:1 -0.25"), Ok(0));
    let link = sim.get_link(0).unwrap();
    assert_eq!(link.get_lane_connections(1), vec![(0, 0), (1, 1)]);
    assert_eq!(link.get_offset_to_link(1), -250_000);
    assert_eq!(run(&mut sim, "conn 0 2 0:0 0"), Err(SimError::NotFound));
    assert_eq!(run(&mut sim, "conn 0 1 0:2 0"), Err(SimError::NotFound));
    assert_eq!(run(&mut sim, "conn 0 1 0_0 0"), Err(SimError::Protocol));
}

#[test]
fn veh_adds_a_vehicle_and_sends_it_on_its_way() {
    let mut sim = Simulation::new(M);
    assert_eq!(run(&mut sim, "link 0 100 0,0 25"), Ok(0));
    assert_eq!(run(&mut sim, "link 1 100 0,0 25"), Ok(0));
    assert_eq!(run(&mut sim, "conn 0 1 0:0 0"), Ok(0));
    assert_eq!(run(&mut sim, "veh 77 0 1 0 12.5"), Ok(0));
    let v = sim.get_vehicle(0).unwrap();
    assert_eq!((v.id, v.user_id, v.link, v.lane, v.pos), (0, 77, 0, 0, 12_500_000));
    assert_eq!(v.get_links(), &[0, 1]);
    assert_eq!(sim.get_link(0).unwrap().get_vehicles(), vec![0]);
}

#[test]
fn veh_is_turned_down_as_a_whole() {
    let mut sim = Simulation::new(M);
    assert_eq!(run(&mut sim, "link 0 100 0,0 25"), Ok(0));
    assert_eq!(run(&mut sim, "veh 77 0 1 0 12.5"), Err(SimError::NotFound));
    assert_eq!(run(&mut sim, "veh 77 1 0 0 12.5"), Err(SimError::NotFound));
    assert_eq!(run(&mut sim, "veh 77 0 0 1 12.5"), Err(SimError::NotFound));
    assert_eq!(run(&mut sim, "veh 77 0 0 0 -0.5"), Err(SimError::InvalidConfig));
    assert_eq!(run(&mut sim, "veh 77 0 0 0 100.000001"), Err(SimError::InvalidConfig));
    assert_eq!(run(&mut sim, "veh 77 0 0 1 -0.5"), Err(SimError::NotFound));
    assert!(sim.get_vehicle(0).is_none());
    assert!(sim.get_vehicle_states().is_empty());
    assert_eq!(run(&mut sim, "veh 77 0 0 0 12.5"), Ok(0));
    assert_eq!(sim.get_vehicle(0).map(|v| v.user_id), Some(77));
}

#[test]
fn stop_and_conflict_set_up_the_stop_lines() {
    let mut sim = Simulation::new(M);
    assert_eq!(run(&mut sim, "link 0 100 0,0 25"), Ok(0));
    assert_eq!(run(&mut sim, "stop 1 0 0 90 4 giveway"), Ok(0));
    assert_eq!(run(&mut sim, "stop 2 0 0 50 10 light"), Ok(0));
    assert_eq!(run(&mut sim, "stop 3 1 0 50 10 stop"), Err(SimError::NotFound));
    assert_eq!(run(&mut sim, "stop 3 0 1 50 10 stop"), Err(SimError::NotFound));
    assert_eq!(run(&mut sim, "stop 2 0 0 50 10 none"), Err(SimError::InvalidConfig));
    assert_eq!(run(&mut sim, "stop 3 0 0 50 10 sign"), Err(SimError::Protocol));
    let s = sim.get_stop_line(1).unwrap();
    assert_eq!((s.link, s.lane, s.pos, s.len, s.sight_pos), (0, 0, 90 * M, 4 * M, 40 * M));
    assert_eq!(s.kind, StopLineType::Giveway);
    assert_eq!(
        sim.get_stop_line(2).map(|s| s.kind),
        Some(StopLineType::TrafficLight { state: TrafficLightState::Red })
    );
    assert_eq!(run(&mut sim, "conflict 1 2 -1 0 10"), Ok(0));
    assert_eq!(run(&mut sim, "conflict 1 2 0 0 11.5"), Ok(0));
    assert_eq!(run(&mut sim, "conflict 1 2 127 0 12"), Ok(0));
    assert_eq!(run(&mut sim, "conflict 1 2 -128 0 13"), Ok(0));
    assert_eq!(run(&mut sim, "conflict 1 4 1 0 10"), Err(SimError::NotFound));
    assert_eq!(run(&mut sim, "conflict 1 2 128 0 10"), Err(SimError::Protocol));
    assert_eq!(run(&mut sim, "conflict 1 2 -129 0 10"), Err(SimError::Protocol));
    assert_eq!(
        sim.get_stop_line(1).unwrap().conflicts,
        vec![
            Conflict { stopline: 2, priority: Priority::Lower, max_pos: 10 * M },
            Conflict { stopline: 2, priority: Priority::Equal, max_pos: 11_500_000 },
            Conflict { stopline: 2, priority: Priority::Higher, max_pos: 12 * M },
            Conflict { stopline: 2, priority: Priority::Lower, max_pos: 13 * M },
        ]
    );
}

#[test]
fn step_makes_a_frame_for_every_tick() {
    let mut sim = Simulation::new(M);
    assert_eq!(run(&mut sim, "start 0.1"), Ok(0));
    assert_eq!(run(&mut sim, "link 0 1000 0,0 25"), Ok(0));
    assert_eq!(run(&mut sim, "veh 5 0 0 0 0"), Ok(0));
    assert_eq!(run(&mut sim, "veh 6 0 0 0 100"), Ok(0));
    let frames = sim.execute(parse("step 3").unwrap()).unwrap();
    assert_eq!(frames.len(), 3);
    assert_eq!(frames.iter().map(|f| f.step).collect::<Vec<_>>(), vec![1, 2, 3]);
    for frame in frames.iter() {
        let ids: Vec<usize> = frame.vehicles.iter().map(|v| v.user_id).collect();
        assert_eq!(ids, vec![5, 6]);
    }
    // the first tick leaves the vehicles at rest, the second speeds them up:
    // the one in front freely, the one behind held back a little by it
    assert_eq!((frames[0].vehicles[0].pos, frames[0].vehicles[0].vel), (0, 0));
    assert_eq!((frames[1].vehicles[1].pos, frames[1].vehicles[1].vel), (100_030_000, 300_000));
    assert_eq!((frames[1].vehicles[0].pos, frames[1].vehicles[0].vel), (29_986, 299_868));
    assert_eq!(frames[2].vehicles, sim.get_vehicle_states());
    assert_eq!(run(&mut sim, "step 0"), Ok(0));
    assert_eq!(sim.get_step(), 3);
}

#[test]
fn malformed_commands_are_turned_down() {
    let mut sim = Simulation::new(M);
    for text in [
        "",
        " ",
        "halt",
        "Start 0.1",
        "start",
        "start 0.1 0.2",
        "start  0.1",
        " start 0.1",
        "start 0.1 ",
        "step",
        "step -1",
        "step 4294967296",
        "step 1.0",
        "link 0 100 0,0",
        "link 0 100 0 25",
        "link 0 100 0,0; 25",
        "link 0 100 0,a 25",
        "link zero 100 0,0 25",
        "veh 1 0 1 256 0",
        "veh 1 0 1 0",
        "conn 0 1 0:0",
        "stop 1 0 0 90 4",
        "conflict 1 2 - 0 10",
        "conflict 1 2 1 0",
    ] {
        assert!(matches!(parse(text), Err(SimError::Protocol)));
        assert_eq!(run(&mut sim, text), Err(SimError::Protocol));
    }
    assert_eq!(sim.get_step(), 0);
}

#[test]
fn commands_are_read_field_by_field() {
    assert!(matches!(parse("step 4294967295"), Ok(Command::Step { num_steps: 4294967295 })));
    assert!(matches!(
        parse("veh 1 2 3 4 -5.5"),
        Ok(Command::Veh { id: 1, src_link: 2, dst_link: 3, lane: 4, pos: -5_500_000 })
    ));
    match parse("link 9 10 1,2,3;4,5 6") {
        Ok(Command::Link { id, length, lanes, speed_limit }) => {
            assert_eq!((id, length, speed_limit), (9, 10 * M, 6 * M));
            assert_eq!(lanes, vec![(M, 2 * M), (4 * M, 5 * M)]);
        }
        _ => panic!("the command is well formed"),
    }
    match parse("conn 1 2 3:4;5:6 -7") {
        Ok(Command::Conn { src, dst, pairs, offset }) => {
            assert_eq!((src, dst, offset), (1, 2, -7 * M));
            assert_eq!(pairs, vec![(3, 4), (5, 6)]);
        }
        _ => panic!("the command is well formed"),
    }
    assert!(matches!(
        parse("stop 1 2 3 4 5 stop"),
        Ok(Command::Stop {
            id: 1,
            link: 2,
            lane: 3,
            pos: 4_000_000,
            length: 5_000_000,
            kind: StopLineType::Stop
        })
    ));
    assert!(matches!(
        parse("conflict 1 2 -5 3 4"),
        Ok(Command::Conflict {
            stop1: 1,
            stop2: 2,
            priority: Priority::Lower,
            min_pos: 3_000_000,
            max_pos: 4_000_000
        })
    ));
}

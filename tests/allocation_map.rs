use epirust_index::citizen::Citizen;
use epirust_index::geometry::{Area, Point};
use epirust_index::location_map::AgentLocationMap;

fn area(x0: i32, y0: i32, x1: i32, y1: i32) -> Area {
    Area::new(Point::new(x0, y0), Point::new(x1, y1))
}

fn before_each() -> AgentLocationMap {
    let points = vec![Point { x: 0, y: 1 }, Point { x: 1, y: 0 }];
    let agents = vec![
        Citizen::new_citizen(1, area(0, 0, 2, 2), area(5, 0, 6, 2), points[0], false, false),
        Citizen::new_citizen(2, area(3, 0, 4, 2), area(5, 0, 6, 2), points[0], true, true),
    ];
    AgentLocationMap::new(5, &agents, &points)
}

#[test]
fn allocation_map_new() {
    let map = before_each();
    let actual_citizen = map.get(&Point { x: 0, y: 1 }).unwrap();

    assert_eq!(map.grid_size(), 5);
    assert_eq!(actual_citizen.id, 1);
}

#[test]
fn should_goto_hospital() {
    let points = vec![Point { x: 0, y: 1 }, Point { x: 1, y: 0 }];
    let home_locations = vec![area(0, 0, 2, 2), area(3, 0, 4, 2)];
    let work_locations = vec![area(5, 0, 6, 2), area(7, 0, 8, 2)];
    let citizen1 = Citizen::new_citizen(1, home_locations[0], work_locations[1], points[0], false, false);
    let citizen2 = Citizen::new_citizen(2, home_locations[1], work_locations[0], points[0], true, true);
    let agents = vec![citizen1.clone(), citizen2.clone()];
    let map = AgentLocationMap::new(5, &agents, &points);
    let hospital = area(2, 2, 4, 4);
    let result = map.goto_hospital(&hospital, points[0], &mut citizen1.clone());

    assert_eq!(result.0, true);
    assert_eq!(result.1, Point::new(2, 2));
}

#[test]
fn should_goto_home_location_when_hospital_full() {
    let points = vec![Point::new(0, 0), Point::new(0, 1), Point::new(1, 0), Point::new(1, 1)];
    let home = area(0, 0, 2, 2);
    let work = area(5, 0, 6, 2);
    let citizen1 = Citizen::new_citizen(1, home, work, points[0], false, false);
    let citizen2 = Citizen::new_citizen(2, home, work, points[0], false, false);
    let citizen3 = Citizen::new_citizen(3, home, work, points[0], false, false);
    let citizen4 = Citizen::new_citizen(4, home, work, points[0], false, false);
    let agents = vec![citizen1.clone(), citizen2.clone(), citizen3.clone(), citizen4.clone()];
    let map = AgentLocationMap::new(5, &agents, &points);
    let hospital = area(0, 0, 1, 1);

    let result = map.goto_hospital(&hospital, points[0], &mut citizen1.clone());

    assert_eq!(result.0, false);
    assert_eq!(citizen1.clone().home_location.contains(&result.1), true);
}

#[test]
fn should_return_true_when_point_is_in_grid() {
    let map = before_each();
    let points = vec![Point::new(0, 0), Point::new(4, 4), Point::new(2, 2)];
    for point in points {
        assert!(map.is_point_in_grid(&point))
    }
}

#[test]
fn should_return_false_when_point_is_out_of_grid() {
    let map = before_each();
    let points = vec![Point::new(-1, -1), Point::new(5, 5), Point::new(2, 12)];
    for point in points {
        assert!(!map.is_point_in_grid(&point))
    }
}

#[test]
fn should_move_agent() {
    let mut map = before_each();

    map.move_agents();

    let citizen_option = map.get(&Point { x: 0, y: 1 });

    match citizen_option {
        Some(x) => assert_ne!(x.id, 1),
        None => assert_eq!(1, 1),
    }
    assert_eq!(map.current_population(), 2);
}

#[test]
fn should_get_empty_cells() {
    let map = before_each();

    let empty_cells = map.get_empty_cells_from(Point { x: 0, y: 1 }.get_neighbor_cells(5));
    assert_eq!(empty_cells.len(), 4);
}

#[test]
fn should_get_neighbor_agents() {
    let map = before_each();

    let neighbor_agents = map.get_agents_from(Point { x: 0, y: 1 }.get_neighbor_cells(5));
    assert_eq!(neighbor_agents.len(), 1);
}

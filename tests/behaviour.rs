use epirust_index::chance::get_random_element_from;
use epirust_index::citizen::{Citizen, Commuter, Migrator, State, LAST_INFECTION_DAY, RATE_SCALE};
use epirust_index::geometry::{Area, Point};
use epirust_index::grid::Grid;
use epirust_index::location_map::{AgentLocationMap, MapError};

fn area(x0: i32, y0: i32, x1: i32, y1: i32) -> Area {
    Area::new(Point::new(x0, y0), Point::new(x1, y1))
}

fn person(id: u64) -> Citizen {
    Citizen::new_citizen(id, area(0, 0, 2, 2), area(5, 0, 6, 2), Point::new(0, 0), false, false)
}

fn infectious(id: u64, rate: u32) -> Citizen {
    let mut c = person(id);
    c.infect();
    c.transmission_rate = rate;
    c
}

fn migrator(id: u64, state: State, working: bool) -> Migrator {
    Migrator {
        id,
        state,
        infection_day: 0,
        vaccinated: false,
        working,
        uses_public_transport: false,
        transmission_rate: 0,
        fatality_rate: 0,
    }
}

fn town() -> Grid {
    Grid::new(area(0, 0, 4, 4), vec![area(0, 0, 1, 1), area(2, 0, 3, 1)], vec![area(0, 3, 4, 4)], 4, 10)
}

#[test]
fn certain_transmission_infects_the_neighbour() {
    let points = vec![Point::new(0, 1), Point::new(1, 0)];
    let agents = vec![person(1), infectious(2, RATE_SCALE)];
    let mut map = AgentLocationMap::new(5, &agents, &points);
    let before = map.get_record();
    assert_eq!(before.susceptible, 1);
    assert_eq!(before.infected, 1);

    map.update_infections();

    assert_eq!(map.get(&Point::new(0, 1)).unwrap().state, State::Infected);
    let after = map.get_record();
    assert_eq!(after.susceptible, before.susceptible - 1);
    assert_eq!(after.infected, before.infected + 1);
}

#[test]
fn zero_transmission_never_infects() {
    let points = vec![Point::new(0, 1), Point::new(1, 0)];
    let agents = vec![person(1), infectious(2, 0)];
    let mut map = AgentLocationMap::new(5, &agents, &points);
    map.update_infections();
    assert_eq!(map.get(&Point::new(0, 1)).unwrap().state, State::Susceptible);
    assert_eq!(map.get_record().susceptible, 1);
}

#[test]
fn distant_infected_citizen_does_not_infect() {
    let points = vec![Point::new(0, 0), Point::new(3, 3)];
    let agents = vec![person(1), infectious(2, RATE_SCALE)];
    let mut map = AgentLocationMap::new(5, &agents, &points);
    map.update_infections();
    assert_eq!(map.get(&Point::new(0, 0)).unwrap().state, State::Susceptible);
}

#[test]
fn vaccinated_citizen_is_never_infected() {
    let points = vec![Point::new(1, 1), Point::new(0, 0), Point::new(2, 2), Point::new(0, 2)];
    let mut target = person(1);
    target.set_vaccination(true);
    let agents = vec![target, infectious(2, RATE_SCALE), infectious(3, RATE_SCALE), infectious(4, RATE_SCALE)];
    let mut map = AgentLocationMap::new(5, &agents, &points);
    for _ in 0..5 {
        map.update_infections();
    }
    assert_eq!(map.get(&Point::new(1, 1)).unwrap(), target);
    assert_eq!(map.get_record().susceptible, 1);
}

#[test]
fn move_into_occupied_cell_changes_nothing() {
    let points = vec![Point::new(0, 1), Point::new(1, 0)];
    let agents = vec![person(1), person(2)];
    let mut map = AgentLocationMap::new(5, &agents, &points);
    assert_eq!(map.move_agent(points[0], points[1]), points[0]);
    let moved = map.move_citizen(agents[0], points[0], points[1]);
    assert!(!moved);
    assert_eq!(map.get(&points[0]).unwrap().id, 1);
    assert_eq!(map.get(&points[1]).unwrap().id, 2);
    assert_eq!(map.current_population(), 2);
}

#[test]
fn move_into_free_cell_relocates() {
    let points = vec![Point::new(0, 1), Point::new(1, 0)];
    let agents = vec![person(1), person(2)];
    let mut map = AgentLocationMap::new(5, &agents, &points);
    assert_eq!(map.move_agent(points[0], Point::new(3, 3)), Point::new(3, 3));
    assert!(map.move_citizen(agents[0], points[0], Point::new(3, 3)));
    assert!(map.is_cell_vacant(&points[0]));
    assert_eq!(map.get(&Point::new(3, 3)).unwrap().id, 1);
}

#[test]
fn insert_never_overwrites() {
    let mut map = before_each_pair();
    let newcomer = person(9);
    assert_eq!(map.insert(Point::new(0, 1), newcomer), Some(newcomer));
    assert_eq!(map.get(&Point::new(0, 1)).unwrap().id, 1);
    assert_eq!(map.insert(Point::new(4, 4), newcomer), None);
    assert_eq!(map.get(&Point::new(4, 4)).unwrap().id, 9);
    assert_eq!(map.get_record().susceptible, 3);
}

fn before_each_pair() -> AgentLocationMap {
    let points = vec![Point::new(0, 1), Point::new(1, 0)];
    AgentLocationMap::new(5, &vec![person(1), person(2)], &points)
}

#[test]
fn counts_cover_the_population() {
    let points = vec![Point::new(0, 0), Point::new(1, 0), Point::new(2, 0)];
    let mut dead = person(3);
    dead.state = State::Deceased;
    let mut map = AgentLocationMap::new(5, &vec![person(1), infectious(2, 0), dead], &points);
    let r = map.get_record();
    assert_eq!(r.susceptible + r.exposed + r.infected + r.quarantined + r.recovered + r.deceased, 3);
    assert_eq!(r.deceased, 1);
    map.clear();
    assert_eq!(map.current_population(), 0);
    assert_eq!(map.get_record().susceptible, 0);
}

#[test]
fn init_with_capacity_empties_the_map() {
    let mut map = before_each_pair();
    map.init_with_capacity(16);
    assert_eq!(map.current_population(), 0);
    assert!(map.is_cell_vacant(&Point::new(0, 1)));
}

#[test]
fn iter_lists_every_occupant_once() {
    let map = before_each_pair();
    let mut ids: Vec<u64> = map.iter().iter().map(|e| e.1.id).collect();
    ids.sort();
    assert_eq!(ids, vec![1, 2]);
}

#[test]
fn quarantine_sends_infected_to_hospital() {
    let points = vec![Point::new(0, 0), Point::new(4, 4)];
    let mut map = AgentLocationMap::new(5, &vec![infectious(1, 0), person(2)], &points);
    map.quarantine(area(3, 0, 4, 1));
    let r = map.get_record();
    assert_eq!(r.infected, 0);
    assert_eq!(r.quarantined, 1);
    assert_eq!(map.get(&Point::new(3, 0)).unwrap().id, 1);
    assert!(map.get(&Point::new(3, 0)).unwrap().hospitalized);
    assert!(map.is_cell_vacant(&Point::new(0, 0)));
}

#[test]
fn quarantine_falls_back_home_when_hospital_full() {
    let points = vec![Point::new(3, 3), Point::new(0, 0)];
    let mut map = AgentLocationMap::new(5, &vec![infectious(1, 0), person(2)], &points);
    map.quarantine(area(0, 0, 0, 0));
    let r = map.get_record();
    assert_eq!(r.infected, 0);
    assert_eq!(r.quarantined, 1);
    let (p, c) = map.iter().into_iter().find(|e| e.1.id == 1).unwrap();
    assert!(!c.hospitalized);
    assert!(area(0, 0, 2, 2).contains(&p));
}

#[test]
fn infection_days_advance_for_the_ill_only() {
    let points = vec![Point::new(0, 0), Point::new(4, 4)];
    let mut map = AgentLocationMap::new(5, &vec![infectious(1, 0), person(2)], &points);
    map.update_infection_day();
    map.update_infection_day();
    assert_eq!(map.get(&points[0]).unwrap().infection_day, 2);
    assert_eq!(map.get(&points[1]).unwrap().infection_day, 0);
}

#[test]
fn illness_ends_in_recovery_or_death() {
    let mut survivor = infectious(1, 0);
    survivor.quarantine();
    survivor.infection_day = LAST_INFECTION_DAY;
    survivor.fatality_rate = 0;
    let mut victim = infectious(2, 0);
    victim.quarantine();
    victim.infection_day = LAST_INFECTION_DAY;
    victim.fatality_rate = RATE_SCALE;
    victim.home_location = area(4, 4, 4, 4);
    let mut early = infectious(3, 0);
    early.quarantine();
    let points = vec![Point::new(2, 2), Point::new(3, 3), Point::new(2, 4)];
    let mut map = AgentLocationMap::new(5, &vec![survivor, victim, early], &points);
    map.deceased();
    let r = map.get_record();
    assert_eq!(r.recovered, 1);
    assert_eq!(r.deceased, 1);
    assert_eq!(r.quarantined, 1);
    assert_eq!(map.get(&Point::new(0, 0)).unwrap().state, State::Recovered);
    assert_eq!(map.get(&Point::new(4, 4)).unwrap().state, State::Deceased);
    assert_eq!(map.get(&Point::new(2, 4)).unwrap().state, State::Quarantined);
}

#[test]
fn vaccination_spares_the_infected() {
    let points = vec![Point::new(0, 0), Point::new(4, 4)];
    let mut map = AgentLocationMap::new(5, &vec![infectious(1, 0), person(2)], &points);
    map.vaccinate(0, 1);
    assert!(!map.get(&points[1]).unwrap().vaccinated);
    map.vaccinate(1, 1);
    assert!(!map.get(&points[0]).unwrap().vaccinated);
    assert!(map.get(&points[1]).unwrap().vaccinated);
}

#[test]
fn goto_sends_workers_to_the_area() {
    let mut worker = person(1);
    worker.working = true;
    let mut resting = person(2);
    resting.state = State::Quarantined;
    let points = vec![Point::new(0, 0), Point::new(2, 2)];
    let mut map = AgentLocationMap::new(5, &vec![worker, resting], &points);
    map.goto(area(4, 4, 4, 4));
    assert_eq!(map.get(&Point::new(4, 4)).unwrap().id, 1);
    assert_eq!(map.get(&Point::new(2, 2)).unwrap().id, 2);
    assert_eq!(map.current_population(), 2);
}

#[test]
fn removing_migrators_frees_cells_and_homes() {
    let mut grid = town();
    let house = grid.houses[0];
    grid.add_house_occupant(&house);
    let mut c = person(1);
    c.home_location = house;
    let points = vec![Point::new(0, 0), Point::new(1, 1)];
    let mut map = AgentLocationMap::new(5, &vec![c, person(2)], &points);
    let out = vec![(points[0], migrator(1, State::Susceptible, false))];
    assert_eq!(map.remove_migrators(&out, &mut grid), Ok(()));
    assert_eq!(map.current_population(), 1);
    assert!(map.is_cell_vacant(&points[0]));
    assert_eq!(grid.house_occupants[0], 0);
    assert_eq!(map.get_record().susceptible, 1);
}

#[test]
fn removing_from_an_empty_cell_is_refused() {
    let mut grid = town();
    let mut map = before_each_pair();
    let out = vec![(Point::new(0, 1), migrator(1, State::Susceptible, false)), (Point::new(3, 3), migrator(5, State::Susceptible, false))];
    assert_eq!(map.remove_migrators(&out, &mut grid), Err(MapError::NoCitizenAt { x: 3, y: 3 }));
    assert_eq!(map.current_population(), 2);
}

#[test]
fn removing_a_dead_traveller_is_refused() {
    let mut grid = town();
    let mut map = before_each_pair();
    let out = vec![(Point::new(0, 1), migrator(1, State::Deceased, false))];
    assert_eq!(map.remove_migrators(&out, &mut grid), Err(MapError::DeceasedTraveller { id: 1 }));
    assert_eq!(map.current_population(), 2);
}

#[test]
fn removing_a_cell_twice_is_refused() {
    let mut grid = town();
    let mut map = before_each_pair();
    let out = vec![(Point::new(0, 1), migrator(1, State::Susceptible, false)), (Point::new(0, 1), migrator(1, State::Susceptible, false))];
    assert_eq!(map.remove_migrators(&out, &mut grid), Err(MapError::RepeatedCell { x: 0, y: 1 }));
    assert_eq!(map.current_population(), 2);
}

#[test]
fn empty_batches_change_nothing() {
    let mut grid = town();
    let mut rng = rand::thread_rng();
    let mut map = before_each_pair();
    assert_eq!(map.remove_migrators(&vec![], &mut grid), Ok(()));
    assert_eq!(map.assimilate_migrators(&vec![], &mut grid, &mut rng), Ok(()));
    assert_eq!(map.assimilate_commuters(&vec![], &mut grid, &mut rng), Ok(()));
    assert_eq!(map.current_population(), 2);
}

#[test]
fn migrators_settle_in_the_housing_area() {
    let mut grid = town();
    let mut rng = rand::thread_rng();
    let mut map = AgentLocationMap::new(5, &vec![], &vec![]);
    let incoming = vec![migrator(7, State::Infected, true), migrator(8, State::Recovered, false)];
    assert_eq!(map.assimilate_migrators(&incoming, &mut grid, &mut rng), Ok(()));
    assert_eq!(map.current_population(), 2);
    let r = map.get_record();
    assert_eq!(r.infected, 1);
    assert_eq!(r.recovered, 1);
    for (p, c) in map.iter() {
        assert!(grid.housing_area.contains(&p));
        assert_eq!(c.transport_location, p);
    }
    assert_eq!(grid.house_occupants.iter().sum::<u32>(), 2);
    assert_eq!(grid.office_occupants[0], 1);
}

#[test]
fn dead_migrator_is_refused() {
    let mut grid = town();
    let mut rng = rand::thread_rng();
    let mut map = before_each_pair();
    let incoming = vec![migrator(7, State::Susceptible, false), migrator(8, State::Deceased, false)];
    assert_eq!(map.assimilate_migrators(&incoming, &mut grid, &mut rng), Err(MapError::DeceasedTraveller { id: 8 }));
    assert_eq!(map.current_population(), 2);
}

#[test]
fn migrator_without_house_is_refused() {
    let mut grid = Grid::new(area(0, 0, 4, 4), vec![area(0, 0, 1, 1)], vec![], 0, 0);
    let mut rng = rand::thread_rng();
    let mut map = before_each_pair();
    let incoming = vec![migrator(7, State::Susceptible, false)];
    assert_eq!(map.assimilate_migrators(&incoming, &mut grid, &mut rng), Err(MapError::NoRoom));
    assert_eq!(map.current_population(), 2);
}

#[test]
fn commuters_take_an_office_and_a_cell() {
    let mut grid = town();
    let mut rng = rand::thread_rng();
    let mut map = before_each_pair();
    let incoming = vec![Commuter {
        id: 11,
        state: State::Exposed,
        infection_day: 0,
        vaccinated: false,
        home_location: area(9, 9, 9, 9),
        work_location: area(0, 3, 4, 4),
        transmission_rate: 0,
        fatality_rate: 0,
    }];
    assert_eq!(map.assimilate_commuters(&incoming, &mut grid, &mut rng), Ok(()));
    assert_eq!(map.current_population(), 3);
    assert_eq!(map.get_record().exposed, 1);
    assert_eq!(grid.office_occupants[0], 1);
}

#[test]
fn migration_round_trip_keeps_counts() {
    let mut grid = town();
    let mut rng = rand::thread_rng();
    let points = vec![Point::new(0, 0), Point::new(1, 0)];
    let mut map = AgentLocationMap::new(5, &vec![infectious(1, 0), person(2)], &points);
    let before = map.get_record();
    let out = vec![(points[0], migrator(1, State::Infected, false))];
    assert_eq!(map.remove_migrators(&out, &mut grid), Ok(()));
    assert_eq!(map.get_record().infected, 0);
    let back = vec![migrator(1, State::Infected, false)];
    assert_eq!(map.assimilate_migrators(&back, &mut grid, &mut rng), Ok(()));
    assert_eq!(map.get_record(), before);
    assert_eq!(map.current_population(), 2);
}

#[test]
fn random_element_comes_from_the_list() {
    let mut rng = rand::thread_rng();
    let fallback = Point::new(9, 9);
    assert_eq!(get_random_element_from(&mut rng, &vec![], fallback), fallback);
    let list = vec![Point::new(1, 2), Point::new(3, 4)];
    for _ in 0..20 {
        assert!(list.contains(&get_random_element_from(&mut rng, &list, fallback)));
    }
}

#[test]
fn grid_counts_occupants() {
    let mut grid = town();
    let mut rng = rand::thread_rng();
    let house = grid.houses[1];
    grid.add_house_occupant(&house);
    grid.add_house_occupant(&house);
    assert_eq!(grid.house_occupants[1], 2);
    grid.remove_house_occupant(&house);
    assert_eq!(grid.house_occupants[1], 1);
    let full = Grid::new(area(0, 0, 4, 4), vec![area(0, 0, 1, 1)], vec![area(2, 2, 3, 3)], 0, 1);
    assert_eq!(full.choose_house_with_free_space(&mut rng), None);
    assert_eq!(full.choose_office_with_free_space(&mut rng), Some(area(2, 2, 3, 3)));
}

#[test]
fn neighbours_of_a_corner() {
    let cells = Point::new(0, 0).get_neighbor_cells(5);
    assert_eq!(cells, vec![Point::new(0, 1), Point::new(1, 0), Point::new(1, 1)]);
}

#[test]
fn update_citizen_keeps_totals_in_step() {
    let mut map = before_each_pair();
    let ill = infectious(1, 0);
    assert!(map.update_citizen(Point::new(0, 1), ill));
    assert_eq!(map.get(&Point::new(0, 1)).unwrap().state, State::Infected);
    assert_eq!(map.get_record().infected, 1);
    assert_eq!(map.get_record().susceptible, 1);
    assert!(!map.update_citizen(Point::new(4, 4), ill));
    assert_eq!(map.current_population(), 2);
}

#[test]
fn removing_a_worker_frees_its_office() {
    let mut grid = town();
    let office = grid.offices[0];
    grid.add_office_occupant(&office);
    let mut c = person(1);
    c.working = true;
    c.work_location = office;
    let points = vec![Point::new(2, 2)];
    let mut map = AgentLocationMap::new(5, &vec![c], &points);
    let out = vec![(points[0], migrator(1, State::Susceptible, true))];
    assert_eq!(map.remove_migrators(&out, &mut grid), Ok(()));
    assert_eq!(grid.office_occupants[0], 0);
    assert_eq!(map.current_population(), 0);
}

#[test]
fn movement_keeps_every_citizen_once() {
    let points = vec![Point::new(0, 0), Point::new(1, 1), Point::new(2, 2)];
    let mut map = AgentLocationMap::new(5, &vec![person(1), person(2), person(3)], &points);
    map.move_agents();
    let mut ids: Vec<u64> = map.iter().iter().map(|e| e.1.id).collect();
    ids.sort();
    assert_eq!(ids, vec![1, 2, 3]);
    for (p, c) in map.iter() {
        let start = points[(c.id - 1) as usize];
        assert!((p.x - start.x).abs() <= 1 && (p.y - start.y).abs() <= 1);
        assert_ne!(p, start);
    }
}

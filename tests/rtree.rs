use rtreec::rect::{area, contains, intersects, is_valid, margin, union};
use rtreec::{Entry, RTreeC, Visitor};

const NAME_SIZE: usize = 16;

struct City {
    name: String,
    lat: f64,
    lon: f64,
}

fn city(name: &str, lat: f64, lon: f64) -> City {
    City { name: name.to_string(), lat, lon }
}

/// Degrees in thousandths, the tree's integer coordinates.
fn milli(x: f64) -> i64 {
    (x * 1000.0).round() as i64
}

fn point(c: &City) -> Vec<i64> {
    vec![milli(c.lon), milli(c.lat), milli(c.lon), milli(c.lat)]
}

fn payload(c: &City) -> Vec<u8> {
    let mut b = c.name.as_bytes().to_vec();
    b.resize(NAME_SIZE, 0);
    b
}

fn name_of(b: &[u8]) -> String {
    let end = b.iter().position(|&x| x == 0).unwrap_or(b.len());
    String::from_utf8(b[..end].to_vec()).unwrap()
}

struct Names {
    names: Vec<String>,
}

impl Visitor for Names {
    fn visit(&mut self, _rect: &Vec<i64>, item: &Vec<u8>) -> bool {
        self.names.push(name_of(item));
        true
    }
}

struct StopAtFirst {
    calls: usize,
}

impl Visitor for StopAtFirst {
    fn visit(&mut self, _rect: &Vec<i64>, _item: &Vec<u8>) -> bool {
        self.calls += 1;
        false
    }
}

struct Counter {
    calls: usize,
}

impl Visitor for Counter {
    fn visit(&mut self, _rect: &Vec<i64>, _item: &Vec<u8>) -> bool {
        self.calls += 1;
        true
    }
}

fn names_in(t: &RTreeC, q: Vec<i64>) -> Vec<String> {
    let mut v = Names { names: vec![] };
    assert!(t.search(q, &mut v));
    v.names
}

fn sorted(mut v: Vec<String>) -> Vec<String> {
    v.sort();
    v
}

fn deg(r: [f64; 4]) -> Vec<i64> {
    r.iter().map(|&x| milli(x)).collect()
}

#[test]
fn rtreec_new() {
    let mut rtree = RTreeC::new(NAME_SIZE, 2);
    assert_eq!(rtree.count(), 0);

    let phx = city("Phoenix", 33.448, -112.073);
    let enn = city("Ennis", 52.843, -8.986);
    let pra = city("Prague", 50.088, -14.420);
    let tai = city("Taipei", 25.033, 121.565);
    let her = city("Hermosillo", 29.102, -110.977);
    let him = city("Himeji", 34.816, 134.700);

    for c in [&phx, &enn, &pra, &tai, &her, &him] {
        assert!(rtree.insert(point(c), &payload(c)));
    }

    assert_eq!(rtree.count(), 6);

    let northwestern_cities = names_in(&rtree, deg([-180.0, 0.0, 0.0, 90.0]));
    assert_eq!(northwestern_cities, vec!["Phoenix", "Ennis", "Prague", "Hermosillo"]);

    let northeastern_cities = names_in(&rtree, deg([0.0, 0.0, 180.0, 90.0]));
    assert_eq!(northeastern_cities, vec!["Taipei", "Himeji"]);

    assert!(rtree.delete(point(&phx), &payload(&phx)));

    let northwestern_cities = names_in(&rtree, deg([-180.0, 0.0, 0.0, 90.0]));
    assert_eq!(northwestern_cities, vec!["Ennis", "Prague", "Hermosillo"]);

    assert!(!rtree.delete(point(&phx), &payload(&phx)));
    assert_eq!(rtree.count(), 5);
}

fn grid_item(i: i64) -> (Vec<i64>, Vec<u8>) {
    let x = (i * 37) % 101;
    let y = (i * 53) % 97;
    (vec![x, y, x + i % 3, y + i % 5], (i as u32).to_le_bytes().to_vec())
}

fn overlap(a: &[i64], b: &[i64]) -> bool {
    a[0] <= b[2] && b[0] <= a[2] && a[1] <= b[3] && b[1] <= a[3]
}

#[test]
fn many_inserts_search_matches_scan() {
    let mut t = RTreeC::new(4, 2);
    let items: Vec<(Vec<i64>, Vec<u8>)> = (0..300).map(grid_item).collect();
    for (r, b) in &items {
        assert!(t.insert(r.clone(), b));
    }
    assert_eq!(t.count(), 300);
    let queries = [vec![0, 0, 10, 10], vec![20, 30, 60, 40], vec![-5, -5, 200, 200], vec![50, 50, 50, 50]];
    for q in &queries {
        let mut got: Vec<(Vec<i64>, Vec<u8>)> =
            t.search_items(q).into_iter().map(|e: Entry| (e.rect, e.data)).collect();
        let mut want: Vec<(Vec<i64>, Vec<u8>)> =
            items.iter().filter(|(r, _)| overlap(r, q)).cloned().collect();
        got.sort();
        want.sort();
        assert_eq!(got, want);
        let mut c = Counter { calls: 0 };
        assert!(t.search(q.clone(), &mut c));
        assert_eq!(c.calls, want.len());
    }
}

#[test]
fn count_tracks_inserts_and_deletes() {
    let mut t = RTreeC::new(4, 2);
    let items: Vec<(Vec<i64>, Vec<u8>)> = (0..120).map(grid_item).collect();
    for (r, b) in &items {
        assert!(t.insert(r.clone(), b));
    }
    let mut expected = 120u64;
    for (i, (r, b)) in items.iter().enumerate() {
        if i % 2 == 0 {
            assert!(t.delete(r.clone(), b));
            expected -= 1;
            assert_eq!(t.count(), expected);
        }
    }
    assert_eq!(t.count(), 60);
    let left: Vec<(Vec<i64>, Vec<u8>)> = t
        .search_items(&vec![-1000, -1000, 1000, 1000])
        .into_iter()
        .map(|e| (e.rect, e.data))
        .collect();
    assert_eq!(left.len(), 60);
    for (i, (r, b)) in items.iter().enumerate() {
        assert_eq!(left.contains(&(r.clone(), b.clone())), i % 2 == 1);
    }
    for (i, (r, b)) in items.iter().enumerate() {
        assert_eq!(t.delete(r.clone(), b), i % 2 == 1);
    }
    assert_eq!(t.count(), 0);
    assert!(t.search_items(&vec![-1000, -1000, 1000, 1000]).is_empty());
}

#[test]
fn insert_then_delete_round_trip() {
    let mut t = RTreeC::new(2, 2);
    for i in 0..20i64 {
        assert!(t.insert(vec![i, i, i + 1, i + 1], &vec![i as u8, 0]));
    }
    let before = t.count();
    assert!(t.insert(vec![5, 5, 9, 9], &vec![7, 7]));
    assert!(t.delete(vec![5, 5, 9, 9], &vec![7, 7]));
    assert_eq!(t.count(), before);
    assert!(!t.delete(vec![5, 5, 9, 9], &vec![7, 7]));
}

#[test]
fn early_stop_visits_one_item() {
    let mut t = RTreeC::new(1, 1);
    for i in 0..10i64 {
        assert!(t.insert(vec![i, i + 2], &vec![i as u8]));
    }
    let mut v = StopAtFirst { calls: 0 };
    assert!(!t.search(vec![0, 100], &mut v));
    assert_eq!(v.calls, 1);
    let mut none = StopAtFirst { calls: 0 };
    assert!(t.search(vec![200, 300], &mut none));
    assert_eq!(none.calls, 0);
}

#[test]
fn duplicates_are_removed_one_at_a_time() {
    let mut t = RTreeC::new(1, 2);
    assert!(t.insert(vec![1, 1, 2, 2], &vec![9]));
    assert!(t.insert(vec![1, 1, 2, 2], &vec![9]));
    assert!(t.insert(vec![1, 1, 2, 2], &vec![8]));
    assert_eq!(t.count(), 3);
    assert!(t.delete(vec![1, 1, 2, 2], &vec![9]));
    assert_eq!(t.count(), 2);
    assert_eq!(t.search_items(&vec![0, 0, 5, 5]).len(), 2);
    assert!(t.delete(vec![1, 1, 2, 2], &vec![9]));
    assert!(!t.delete(vec![1, 1, 2, 2], &vec![9]));
    assert!(!t.delete(vec![1, 1, 2, 3], &vec![8]));
    assert_eq!(t.count(), 1);
}

#[test]
fn rejected_inserts_change_nothing() {
    let mut t = RTreeC::new(2, 2);
    assert!(!t.insert(vec![0, 0, 1], &vec![0, 0]));
    assert!(!t.insert(vec![3, 0, 1, 1], &vec![0, 0]));
    assert!(!t.insert(vec![0, 0, 1, 1], &vec![0]));
    assert_eq!(t.count(), 0);
    assert!(!t.delete(vec![0, 0, 1], &vec![0, 0]));
}

#[test]
fn three_dimensional_boxes() {
    let mut t = RTreeC::new(1, 3);
    for i in 0..50i64 {
        assert!(t.insert(vec![i, 0, -i, i + 1, 1, -i + 1], &vec![i as u8]));
    }
    assert_eq!(t.count(), 50);
    let hits = t.search_items(&vec![10, 0, -20, 20, 0, 0]);
    let mut ids: Vec<u8> = hits.iter().map(|e| e.data[0]).collect();
    ids.sort();
    assert_eq!(ids, (9u8..=20).collect::<Vec<u8>>());
}

#[test]
fn rectangle_algebra_values() {
    let a = vec![0, 0, 4, 3];
    let b = vec![2, 1, 6, 8];
    let p = vec![5, 5, 5, 5];
    assert!(is_valid(&a, 2));
    assert!(!is_valid(&vec![1, 0, 0, 3], 2));
    assert!(!is_valid(&a, 3));
    assert!(intersects(&a, &b, 2));
    assert!(!intersects(&a, &p, 2));
    assert!(intersects(&a, &vec![4, 3, 9, 9], 2));
    assert!(contains(&b, &p, 2));
    assert!(!contains(&a, &b, 2));
    assert_eq!(union(&a, &b, 2), vec![0, 0, 6, 8]);
    assert_eq!(area(&a, 2), 12);
    assert_eq!(area(&p, 2), 0);
    assert_eq!(margin(&a, 2), 7);
    assert_eq!(margin(&p, 2), 0);
    let full: u128 = u64::MAX as u128;
    assert_eq!(area(&vec![i64::MIN, i64::MIN, i64::MAX, i64::MAX], 2), full * full);
    let cube = vec![i64::MIN, i64::MIN, i64::MIN, i64::MAX, i64::MAX, i64::MAX];
    assert_eq!(area(&cube, 3), u128::MAX);
}

struct StopAfter {
    limit: usize,
    got: Vec<Vec<u8>>,
}

impl Visitor for StopAfter {
    fn visit(&mut self, _rect: &Vec<i64>, item: &Vec<u8>) -> bool {
        self.got.push(item.clone());
        self.got.len() < self.limit
    }
}

#[test]
fn early_stop_gives_prefix_of_visit_order() {
    let mut t = RTreeC::new(4, 2);
    for i in 0..80i64 {
        let (r, b) = grid_item(i);
        assert!(t.insert(r, &b));
    }
    let q = vec![0, 0, 60, 60];
    let order: Vec<Vec<u8>> = t.search_items(&q).into_iter().map(|e| e.data).collect();
    assert!(order.len() > 5);
    let mut all = StopAfter { limit: usize::MAX, got: vec![] };
    assert!(t.search(q.clone(), &mut all));
    assert_eq!(all.got, order);
    let mut some = StopAfter { limit: 5, got: vec![] };
    assert!(!t.search(q.clone(), &mut some));
    assert_eq!(some.got, order[..5].to_vec());
}

use std::cmp::Ordering;

use fsvfs::components::order::cmp_ignore_ascii_case;
use fsvfs::components::{AsComponents, ComponentStr, Components, DefaultConfig, DvdbndConfig};

const PATHS: [&str; 11] = [
    "/model/map/t50_38_00_00.tpfbhd",
    "/model/map/t50_38_00_00_low.tpfbdt",
    "./model//obj/o00_0001.bnd",
    "model_hq/map//g50_38_00_00.gibdt",
    "model_hq/map//g50_38_00_00.gibhd",
    "model_hq/map//t10_02_00_00.tpfbdt",
    "model_hq/map/t10_02_00_00.tpfbhd",
    "model_hq///obj/o00_2000.bnd",
    "model_hq//././chr//c5000.texbnd",
    "model_hq//parts//shield//sd_1000_m.bnd",
    "model_hq/parts/shield//sd_1000_m_l.bnd",
];

fn components<F: Fn(&Components<DvdbndConfig>, &Components<DvdbndConfig>)>(f: F) {
    for path in PATHS {
        let path = path.to_string();
        let path_upper = path.to_ascii_uppercase();

        let split = |p: &str| p.split(['/', '\\']).map(String::from).collect::<Vec<_>>();
        let components = split(&path);
        let components_upper = split(&path_upper);

        for (path, components) in [
            (&path, &components),
            (&path_upper, &components),
            (&path, &components_upper),
            (&path_upper, &components_upper),
        ] {
            let path_as_components = path.as_components::<DvdbndConfig>();
            let components_as_components = components.as_components::<DvdbndConfig>();

            f(&path_as_components, &components_as_components);
        }
    }
}

#[test]
fn components_eq() {
    components(|path_as_components, components_as_components| {
        assert!(path_as_components.eq(path_as_components));
        assert!(path_as_components.eq(components_as_components));
        assert!(components_as_components.eq(path_as_components));
        assert!(components_as_components.eq(components_as_components));
    });
}

#[test]
fn components_partial_ord_eq() {
    components(|path_as_components, components_as_components| {
        const EQ: Option<Ordering> = Some(Ordering::Equal);
        assert_eq!(path_as_components.partial_cmp(path_as_components), EQ);
        assert_eq!(components_as_components.partial_cmp(path_as_components), EQ);
        assert_eq!(path_as_components.partial_cmp(components_as_components), EQ);
        assert_eq!(components_as_components.partial_cmp(components_as_components), EQ);
    });
}

#[test]
fn components_partial_ord() {
    components(|path_as_components1, components_as_components1| {
        components(|path_as_components2, components_as_components2| {
            let cmp0 = path_as_components1.partial_cmp(path_as_components2);
            let cmp1 = components_as_components1.partial_cmp(path_as_components2);
            let cmp2 = path_as_components1.partial_cmp(components_as_components2);
            let cmp3 = components_as_components1.partial_cmp(components_as_components2);

            assert_eq!(cmp0, cmp1);
            assert_eq!(cmp1, cmp2);
            assert_eq!(cmp2, cmp3);
        });
    });
}

#[test]
fn components_ord() {
    components(|path_as_components1, components_as_components1| {
        components(|path_as_components2, components_as_components2| {
            let cmp0 = path_as_components1.cmp(path_as_components2);
            let cmp1 = components_as_components1.cmp(path_as_components2);
            let cmp2 = path_as_components1.cmp(components_as_components2);
            let cmp3 = components_as_components1.cmp(components_as_components2);

            assert_eq!(cmp0, cmp1);
            assert_eq!(cmp1, cmp2);
            assert_eq!(cmp2, cmp3);
        });
    });
}

#[test]
fn components_iterate_skipping_empty_and_dot() {
    let path = "./model//obj/./o00_0001.bnd".to_string();
    let c = path.as_components::<DefaultConfig>();
    let mut it = c.iter();
    assert_eq!(it.next(), Some(b"model".to_vec()));
    assert_eq!(it.next(), Some(b"obj".to_vec()));
    assert_eq!(it.next(), Some(b"o00_0001.bnd".to_vec()));
    assert_eq!(it.next(), None);
    assert_eq!(it.next(), None);
}

#[test]
fn components_case_and_separators_by_config() {
    let a = "Model\\Obj".to_string();
    let b = "model/obj".to_string();
    assert!(a.as_components::<DvdbndConfig>().eq(&b.as_components::<DvdbndConfig>()));
    assert!(!a.as_components::<DefaultConfig>().eq(&b.as_components::<DefaultConfig>()));
    let s = ComponentStr::<DvdbndConfig>::new(&a);
    assert!(s.as_components().eq(&b.as_components::<DvdbndConfig>()));
    assert_eq!(
        "a/b".to_string().as_components::<DefaultConfig>().cmp(&"a/b/c".to_string().as_components()),
        Ordering::Less
    );
    assert_eq!(
        "a/c".to_string().as_components::<DefaultConfig>().cmp(&"a/b/c".to_string().as_components()),
        Ordering::Greater
    );
}

#[test]
fn cmp_ignore_ascii_case_orders_by_length_then_bytes() {
    assert_eq!(cmp_ignore_ascii_case("ab", "abc"), Ordering::Less);
    assert_eq!(cmp_ignore_ascii_case("zz", "abc"), Ordering::Less);
    assert_eq!(cmp_ignore_ascii_case("ABC", "abc"), Ordering::Equal);
    assert_eq!(cmp_ignore_ascii_case("abd", "ABC"), Ordering::Greater);
    assert_eq!(cmp_ignore_ascii_case("", ""), Ordering::Equal);
}

#[test]
fn component_strs_compare_and_hash_by_components() {
    let x = ComponentStr::<DefaultConfig>::new(&"a//./b".to_string());
    let y = ComponentStr::<DefaultConfig>::new(&"a/b".to_string());
    assert!(x.eq(&y));
    assert_eq!(x.cmp(&y), Ordering::Equal);
    assert_eq!(x.partial_cmp(&y), Some(Ordering::Equal));
    assert_eq!(x.hash_input(), y.hash_input());
    let z = ComponentStr::<DefaultConfig>::new(&"a/c".to_string());
    assert_eq!(y.cmp(&z), Ordering::Less);

    let long = ComponentStr::<DvdbndConfig>::new(&"ABCDEFGHIJKLMNOPQ/x".to_string());
    let blocks = long.hash_input();
    assert_eq!(blocks.len(), 2);
    assert_eq!(blocks[0].0, 17);
    assert_eq!(blocks[0].1, vec![b"abcdefghijklmnop".to_vec(), {
        let mut last = vec![0u8; 16];
        last[0] = b'q';
        last
    }]);
    assert_eq!(blocks[1], (1, vec![{
        let mut b = vec![0u8; 16];
        b[0] = b'x';
        b
    }]));
}

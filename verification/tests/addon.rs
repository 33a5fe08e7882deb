use evo::pods::addon_store::{export, import};
use evo::pods::pod::{PodClaim, PodResource};

#[test]
fn import_of_export_gives_the_pods_back() {
    let pairs = vec![
        (
            "pod-3".to_string(),
            vec![PodResource::App("Safari".to_string()), PodResource::Folder("/tmp/notes".to_string())],
            vec![PodClaim::Title("Draft — chapter 2".to_string())],
        ),
        (
            "pod-7".to_string(),
            vec![],
            vec![PodClaim::Document("/Users/a/plan.md".to_string())],
        ),
    ];
    let text = export(&pairs);
    let back = import(&text);
    assert_eq!(
        back,
        vec![
            (
                3u64,
                vec![PodResource::App("Safari".to_string()), PodResource::Folder("/tmp/notes".to_string())],
                vec![PodClaim::Title("Draft — chapter 2".to_string())],
            ),
            (7u64, vec![], vec![PodClaim::Document("/Users/a/plan.md".to_string())]),
        ]
    );
}

#[test]
fn import_of_export_sorts_pods_by_id() {
    let pairs = vec![
        ("pod-12".to_string(), vec![PodResource::Url("https://example.com/a".to_string())], vec![]),
        ("pod-4".to_string(), vec![PodResource::File("/w/notes.md".to_string())], vec![]),
    ];
    let back = import(&export(&pairs));
    assert_eq!(
        back,
        vec![
            (4u64, vec![PodResource::File("/w/notes.md".to_string())], vec![]),
            (12u64, vec![PodResource::Url("https://example.com/a".to_string())], vec![]),
        ]
    );
}

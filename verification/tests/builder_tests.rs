use butterfly::archive::PackageIdent;
use butterfly::builder::{BuilderAPIClient, BuilderError, PackageResults};

fn get_test_ident(name: &str) -> PackageIdent {
    PackageIdent {
        origin: String::from("test"),
        name: String::from(name),
        version: None,
        release: None,
    }
}

fn seach_generator<'a>(
    data: &'a [&str],
    step: usize,
) -> impl Fn(
    &BuilderAPIClient,
    &str,
    Option<&str>,
    usize,
) -> Result<(PackageResults<PackageIdent>, bool), BuilderError>
       + 'a {
    move |_client, search_term, _token, range| {
        let filtered = data
            .iter()
            .filter(|d| d.contains(search_term))
            .collect::<Vec<_>>();

        if filtered.is_empty() {
            return Ok((
                PackageResults {
                    range_start: 0,
                    range_end: 0,
                    total_count: 0,
                    data: vec![],
                },
                false,
            ));
        }

        let total = filtered.len();
        let last = total - 1;
        let (start, end) = if range >= last {
            (last, last)
        } else {
            (range, (range + step).min(last))
        };
        let filtered_range = filtered[start..=end]
            .iter()
            .map(|s| get_test_ident(**s))
            .collect::<Vec<_>>();
        let result = PackageResults {
            range_start: start as i64,
            range_end: end as i64,
            total_count: total as i64,
            data: filtered_range,
        };
        Ok((result, end < last))
    }
}

#[test]
fn package_search() {
    let client = BuilderAPIClient::new("http://test.com", "", "").expect("valid client");

    let sample_data = vec![
        "one_a", "one_b", "one_c", "one_d", "one_e", "two_a", "two_b", "two_c", "two_d",
        "two_e",
    ];

    let searcher = seach_generator(sample_data.as_slice(), 2);
    let r = client
        .search_package_impl("one", 10, None, searcher)
        .expect("valid search");
    assert_eq!(
        r.0.iter().map(|i| i.name.clone()).collect::<Vec<_>>(),
        vec!["one_a", "one_b", "one_c", "one_d", "one_e"]
    );
    assert_eq!(r.1, 5);

    let searcher = seach_generator(sample_data.as_slice(), 2);
    let r = client
        .search_package_impl("_", 3, None, searcher)
        .expect("valid search");
    assert_eq!(
        r.0.iter().map(|i| i.name.clone()).collect::<Vec<_>>(),
        vec!["one_a", "one_b", "one_c"]
    );
    assert_eq!(r.1, 10);

    let searcher = seach_generator(sample_data.as_slice(), 10);
    let r = client
        .search_package_impl("a", 2, None, searcher)
        .expect("valid search");
    assert_eq!(
        r.0.iter().map(|i| i.name.clone()).collect::<Vec<_>>(),
        vec!["one_a", "two_a"]
    );
    assert_eq!(r.1, 2);

    let searcher = seach_generator(sample_data.as_slice(), 10);
    let r = client
        .search_package_impl("does_not_exist", 100, None, searcher)
        .expect("valid search");
    assert_eq!(
        r.0.iter().map(|i| i.name.clone()).collect::<Vec<_>>(),
        Vec::<String>::new()
    );
    assert_eq!(r.1, 0);
}

#[test]
fn endpoint_without_path_gets_the_api_root() {
    let client = BuilderAPIClient::new("http://test.com", "p", "v").expect("valid client");
    assert_eq!(client.endpoint, "http://test.com/v1");
}

#[test]
fn endpoint_with_bare_root_gets_the_api_root() {
    let client = BuilderAPIClient::new("http://test.com/", "p", "v").expect("valid client");
    assert_eq!(client.endpoint, "http://test.com/v1");
}

#[test]
fn endpoint_with_a_path_is_kept() {
    let client = BuilderAPIClient::new("http://test.com/api", "p", "v").expect("valid client");
    assert_eq!(client.endpoint, "http://test.com/api");
}

#[test]
fn endpoint_without_scheme_is_rejected() {
    assert!(BuilderAPIClient::new("test.com", "p", "v").is_err());
}

#[test]
fn search_path_percent_encodes_the_term() {
    let p = butterfly::builder::package_search("one two");
    assert_eq!(p, "depot/pkgs/search/one%20two");
}

#[test]
fn package_paths_join_the_identifier() {
    let id = PackageIdent {
        origin: "core".to_string(),
        name: "redis".to_string(),
        version: Some("4.0.14".to_string()),
        release: Some("20200421191514".to_string()),
    };
    assert_eq!(
        butterfly::builder::package_path(&id),
        "depot/pkgs/core/redis/4.0.14/20200421191514"
    );
    assert_eq!(
        butterfly::builder::package_channels_path(&id),
        "depot/pkgs/core/redis/4.0.14/20200421191514/channels"
    );
    assert_eq!(
        butterfly::builder::channel_package_promote("stable", &id),
        "depot/channels/core/stable/pkgs/redis/4.0.14/20200421191514/promote"
    );
    assert_eq!(
        butterfly::builder::origin_keys_path("core"),
        "depot/origins/core/keys"
    );
}

#[test]
fn err_from_response_names_the_token_on_unauthorized() {
    match butterfly::builder::err_from_response(401, "ignored") {
        BuilderError::ApiError { code, body } => {
            assert_eq!(code, 401);
            assert!(body.contains("Personal Access Token"));
        }
        other => panic!("expected an api error, got {:?}", other),
    }
    match butterfly::builder::err_from_response(500, "boom") {
        BuilderError::ApiError { code, body } => {
            assert_eq!(code, 500);
            assert_eq!(body, "boom");
        }
        other => panic!("expected an api error, got {:?}", other),
    }
}

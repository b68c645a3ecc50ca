use atomic_bomb_engine::batch::{
    check_run, check_steps, endpoint_concurrency, judging_capacity, setup_refused, total_concurrency_increase,
    total_weight, user_agent, wants_judging, Batch, Refusal,
};
use atomic_bomb_engine::board::Board;
use atomic_bomb_engine::controller::ConcurrencyController;
use atomic_bomb_engine::extract_map::ExtractMap;
use atomic_bomb_engine::models::{ApiEndpoint, StepOption};
use atomic_bomb_engine::quick_run::{QuickRun, QUICK_END};
use atomic_bomb_engine::template::Rendering;
use serde_json::Value;

fn endpoint(url: &str, weight: u32) -> ApiEndpoint {
    ApiEndpoint {
        name: "test-1".to_string(),
        url: url.to_string(),
        method: "POST".to_string(),
        weight,
        json: None,
        form_data: None,
        multipart_options: None,
        headers: None,
        cookies: None,
        assert_options: None,
        think_time_option: None,
        setup_options: None,
    }
}

fn steps(increase_step: usize, increase_interval: u64) -> Option<StepOption> {
    Some(StepOption { increase_step, increase_interval })
}

#[test]
fn steps_add_up() {
    let step = StepOption { increase_step: 5, increase_interval: 2 };
    assert_eq!(total_concurrency_increase(10, &step), Some(75));
    let step = StepOption { increase_step: 1, increase_interval: 2 };
    assert_eq!(total_concurrency_increase(10, &step), Some(15));
    assert_eq!(total_concurrency_increase(1, &step), Some(0));
    let never = StepOption { increase_step: 1, increase_interval: 0 };
    assert_eq!(total_concurrency_increase(10, &never), None);
    let fast = StepOption { increase_step: 1, increase_interval: 1 };
    assert_eq!(total_concurrency_increase(u64::MAX, &fast), None);
    assert_eq!(total_concurrency_increase(u64::MAX - 1, &fast), None);
}

#[test]
fn weights_add_up() {
    assert_eq!(total_weight(&vec![]), Some(0));
    assert_eq!(total_weight(&vec![endpoint("u", 1), endpoint("u", 3)]), Some(4));
    assert_eq!(total_weight(&vec![endpoint("u", u32::MAX), endpoint("u", 1)]), None);
}

#[test]
fn runs_are_checked() {
    let list = vec![endpoint("u", 1), endpoint("u", 3)];
    assert!(matches!(check_run(10, 30, &steps(5, 2), Ok(()), &list), Ok(4)));
    assert!(matches!(check_run(10, 75, &steps(5, 2), Ok(()), &list), Ok(4)));
    let refusal = check_run(10, 76, &steps(5, 2), Err("names".to_string()), &list).err().unwrap();
    assert!(matches!(refusal, Refusal::TooFewSteps));
    assert_eq!(
        refusal.message(),
        "阶梯加压总并发数在设置的时间内无法增加到预设的结束并发数"
    );
    let refusal = check_run(10, 75, &steps(5, 2), Err("names".to_string()), &list).err().unwrap();
    assert!(matches!(refusal, Refusal::Names(_)));
    assert_eq!(refusal.message(), "names");
    assert!(matches!(check_run(10, 1000, &None, Ok(()), &list), Ok(4)));
    assert!(matches!(
        check_run(u64::MAX, 1, &steps(1, 1), Ok(()), &list),
        Err(Refusal::Overflow)
    ));
    let refusal = check_run(10, 1, &steps(1, 0), Ok(()), &list).err().unwrap();
    assert!(matches!(refusal, Refusal::ZeroInterval));
    assert_eq!(refusal.message(), "attempt to divide by zero");
    assert!(refusal.is_fatal());
    assert!(check_steps(10, 75, &steps(5, 2)).is_ok());
    assert!(check_steps(10, 75, &None).is_ok());
    let refusal = check_steps(10, 76, &steps(5, 2)).err().unwrap();
    assert!(matches!(refusal, Refusal::TooFewSteps));
    assert!(!refusal.is_fatal());
    let heavy = vec![endpoint("u", u32::MAX), endpoint("u", 1)];
    let refusal = check_run(10, 1, &None, Ok(()), &heavy).err().unwrap();
    assert!(matches!(refusal, Refusal::Overflow));
    assert_eq!(refusal.message(), "attempt to add with overflow");
}

#[test]
fn judging_is_set_up_where_it_is_wanted() {
    assert_eq!(judging_capacity(0), 1024);
    assert_eq!(judging_capacity(4096), 4096);
    let mut list = vec![endpoint("u", 1), endpoint("v", 1)];
    assert!(!wants_judging(&list));
    list[1].assert_options = Some(Vec::new());
    assert!(wants_judging(&list));
}

#[test]
fn agents_have_names() {
    let value = user_agent("engine", "0.1.0", "Linux", "6.1").unwrap();
    assert_eq!(value, "engine 0.1.0 (Linux; 6.1)");
    assert_eq!(
        user_agent("engine", "0.1.0", "Linux", "\n").unwrap_err(),
        "解析user agent失败::\"failed to parse header value\""
    );
}

#[test]
fn every_endpoint_has_a_worker() {
    assert_eq!(endpoint_concurrency(0), 1);
    assert_eq!(endpoint_concurrency(7), 7);
}

#[test]
fn endpoints_are_opened_with_their_urls_filled_in() {
    let mut batch = Batch::new(vec![endpoint("http://h/{{id}}", 1), endpoint("{{#> part}}a{{/part}}", 1)]);
    assert!(!batch.render_template());
    let mut found = ExtractMap::new();
    found.insert("id".to_string(), Value::from(5));
    batch.setup_done(&Some(found));
    assert!(batch.render_template());
    assert_eq!(batch.extracted().get("id"), Some(Value::from(5)));
    let mut board = Board::new();
    let none: Vec<Rendering> = Vec::new();
    assert_eq!(batch.open(&mut board, 0, &none), Ok(1));
    assert_eq!(batch.endpoint(0).url, "http://h/5");
    assert_eq!(batch.open(&mut board, 4, &none), Err("{{#> part}}a{{/part}}".to_string()));
    assert_eq!(board.endpoints(), 1);
    let supplied = vec![Rendering { template: "{{#> part}}a{{/part}}".to_string(), text: None }];
    assert_eq!(batch.open(&mut board, 4, &supplied), Ok(4));
    assert_eq!(batch.endpoint(1).url, "{{#> part}}a{{/part}}");
    assert_eq!(batch.len(), 2);
    let result = board.conclude(1, 0);
    assert_eq!(result.api_results[0].name, "test-1");
    assert_eq!(result.api_results[0].url, "http://h/5");
    assert_eq!(result.api_results[0].path, "/5");
}

#[test]
fn urls_stay_as_they_are_without_setup() {
    let mut batch = Batch::new(vec![endpoint("http://h/{{id}}", 1)]);
    let mut board = Board::new();
    let none: Vec<Rendering> = Vec::new();
    assert_eq!(batch.open(&mut board, 3, &none), Ok(3));
    assert_eq!(batch.endpoint(0).url, "http://h/{{id}}");
}

#[test]
fn permits_come_at_once_without_steps() {
    let mut controller = ConcurrencyController::new(30, false);
    assert!(!controller.is_done());
    let grant = controller.distribute_permits(0);
    assert_eq!((grant.at_once, grant.from_steps), (30, 0));
    assert!(controller.is_done());
    let grant = controller.distribute_permits(9);
    assert_eq!((grant.at_once, grant.from_steps), (0, 0));
}

#[test]
fn permits_come_step_by_step() {
    let mut controller = ConcurrencyController::new(5, true);
    let mut handed = Vec::new();
    for whole in [2, 0, 2, 7] {
        let grant = controller.distribute_permits(whole);
        handed.push(grant.at_once + grant.from_steps);
    }
    assert_eq!(handed, vec![2, 0, 2, 1]);
    assert!(controller.is_done());
}

#[test]
fn single_permit_comes_at_once() {
    let mut controller = ConcurrencyController::new(1, true);
    let grant = controller.distribute_permits(0);
    assert_eq!((grant.at_once, grant.from_steps), (1, 0));
    assert!(controller.is_done());
    let mut eager = ConcurrencyController::new(1, true);
    let grant = eager.distribute_permits(3);
    assert_eq!((grant.at_once, grant.from_steps), (1, 3));
}

#[test]
fn first_step_is_not_capped() {
    let mut controller = ConcurrencyController::new(4, true);
    let grant = controller.distribute_permits(6);
    assert_eq!(grant.from_steps, 6);
    assert!(controller.is_done());
}

#[test]
fn quick_run_counts_successes() {
    let mut run = QuickRun::new();
    for millis in [10u64, 20, 31] {
        run.requested();
        assert!(!run.answered(200, millis));
    }
    run.requested();
    assert!(!run.answered(404, 5));
    run.requested();
    assert!(run.answered(299, QUICK_END + 1));
    let result = run.result(3);
    assert_eq!(result.total_duration, 3);
    assert_eq!(result.total_requests, 5);
    assert_eq!(result.successful_requests, 4);
    assert_eq!(result.median_response_time, 20);
    assert_eq!(result.response_time_95, 31);
    assert_eq!(result.response_time_99, 31);
    assert_eq!(result.max_response_time, 16385);
    assert_eq!(result.min_response_time, 10);
}

#[test]
fn quick_run_groups_long_times() {
    let mut run = QuickRun::new();
    run.answered(200, 1001);
    assert_eq!(run.result(1).median_response_time, 992);
    let empty = QuickRun::new().result(1);
    assert_eq!(empty.median_response_time, 0);
    assert_eq!(empty.min_response_time, u64::MAX);
}

#[test]
fn more_time_admits_more_workers() {
    let step = StepOption { increase_step: 3, increase_interval: 7 };
    let totals: Vec<u64> =
        (0..60).map(|secs| total_concurrency_increase(secs, &step).unwrap()).collect();
    assert!(totals.windows(2).all(|pair| pair[0] <= pair[1]));
    assert_eq!(totals[6], 0);
    assert_eq!(totals[7], 3);
    assert_eq!(totals[59], 3 * 8 * 9 / 2);
}

#[test]
fn failed_setup_is_told() {
    assert_eq!(setup_refused("初始化失败:x"), "全局初始化失败: 初始化失败:x");
}

#[test]
fn quick_percentiles_are_in_order() {
    let mut run = QuickRun::new();
    for millis in [3, 900, 16383, 40, 40, 2] {
        run.requested();
        assert!(!run.answered(200, millis));
    }
    let result = run.result(1);
    assert_eq!(result.median_response_time, 40);
    assert_eq!(result.response_time_95, 15872);
    assert_eq!(result.response_time_99, 15872);
    assert_eq!(result.max_response_time, 16383);
}

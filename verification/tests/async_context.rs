use orchestration::async_context::{
    AsyncArrayKind, AsyncContextMessage, AsyncContextPipeline, MAX_DURABLE_HISTORY, MAX_EPHEMERAL_QUEUE,
    MAX_SUMMARY_HISTORY,
};

#[test]
fn test_async_context_lifecycle_and_cleanup() {
    let mut pipeline = AsyncContextPipeline::new(3);

    pipeline.push_message(AsyncContextMessage::new(
        "m1",
        AsyncArrayKind::DurableSyncUser,
        "user",
        "What is the weather today?",
        1000,
    ));
    pipeline.push_message(AsyncContextMessage::new(
        "m2",
        AsyncArrayKind::EphemeralAsyncUser,
        "tool",
        "Raw 500KB JSON sensor payload...",
        1001,
    ));
    pipeline.push_message(AsyncContextMessage::new(
        "m3",
        AsyncArrayKind::SummaryStatusUser,
        "system",
        "[Tool: weather_sensor -> Success, 45ms]",
        1002,
    ));
    pipeline.push_message(AsyncContextMessage::new(
        "m4",
        AsyncArrayKind::NotificationHUDUser,
        "system",
        "[IoT Alert: Battery Low 15%]",
        1003,
    ));

    let assembled = pipeline.assemble_prompt_context();
    assert_eq!(assembled.len(), 4);

    let cleared = pipeline.post_inference_cleanup(true);
    assert_eq!(cleared, 1);

    let assembled_after = pipeline.assemble_prompt_context();
    assert_eq!(assembled_after.len(), 2);
    assert_eq!(assembled_after[0].id, "m3");
    assert_eq!(assembled_after[1].id, "m1");

    assert_eq!(pipeline.export_durable_facts().len(), 1);
    assert_eq!(pipeline.export_durable_facts()[0].id, "m1");
}

#[test]
fn m7_async_context_vecs_bounded() {
    let mut pipeline = AsyncContextPipeline::new(3);
    for i in 0..(MAX_DURABLE_HISTORY + MAX_SUMMARY_HISTORY + MAX_EPHEMERAL_QUEUE + 10) {
        let id = format!("m{i}");
        pipeline.push_message(AsyncContextMessage::new(&id, AsyncArrayKind::DurableSyncUser, "user", "fact", i as u64));
        pipeline.push_message(AsyncContextMessage::new(&id, AsyncArrayKind::SummaryStatusUser, "system", "sum", i as u64));
        pipeline.push_message(AsyncContextMessage::new(&id, AsyncArrayKind::EphemeralAsyncUser, "tool", "eph", i as u64));
    }
    assert_eq!(pipeline.export_durable_facts().len(), MAX_DURABLE_HISTORY);
    assert_eq!(pipeline.export_summary_records().len(), MAX_SUMMARY_HISTORY);
    let durable = pipeline.export_durable_facts();
    assert_eq!(
        durable.last().unwrap().id,
        format!("m{}", MAX_DURABLE_HISTORY + MAX_SUMMARY_HISTORY + MAX_EPHEMERAL_QUEUE + 9)
    );
    pipeline.post_inference_cleanup(false);
    assert_eq!(pipeline.total_messages_count(), MAX_DURABLE_HISTORY + MAX_SUMMARY_HISTORY);
}

#[test]
fn token_estimate_is_a_quarter_plus_one() {
    assert_eq!(AsyncContextMessage::new("a", AsyncArrayKind::DurableSyncUser, "u", "", 0).token_estimate, 1);
    assert_eq!(AsyncContextMessage::new("a", AsyncArrayKind::DurableSyncUser, "u", "你好世界", 0).token_estimate, 2);
}

#[test]
fn notification_layer_drops_its_oldest_and_order_is_kept() {
    let mut pipeline = AsyncContextPipeline::new(0);
    pipeline.push_message(AsyncContextMessage::new("h1", AsyncArrayKind::NotificationHUDUser, "s", "a", 1));
    pipeline.push_message(AsyncContextMessage::new("h2", AsyncArrayKind::NotificationHUDUser, "s", "b", 2));
    pipeline.push_message(AsyncContextMessage::new("e", AsyncArrayKind::EphemeralAsyncUser, "t", "c", 3));
    pipeline.push_message(AsyncContextMessage::new("s", AsyncArrayKind::SummaryStatusUser, "t", "d", 4));
    let ids: Vec<String> = pipeline.assemble_prompt_context().into_iter().map(|m| m.id).collect();
    assert_eq!(ids, vec!["s".to_string(), "h2".to_string(), "e".to_string()]);
    assert_eq!(pipeline.total_messages_count(), 3);
    let mut default = AsyncContextPipeline::default();
    default.push_message(AsyncContextMessage::new("h1", AsyncArrayKind::NotificationHUDUser, "s", "a", 1));
    default.push_message(AsyncContextMessage::new("h2", AsyncArrayKind::NotificationHUDUser, "s", "b", 2));
    assert_eq!(default.total_messages_count(), 1);
}

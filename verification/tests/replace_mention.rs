use mappers::replace_mention::{
    channel_mention_ids, channel_mention_label, replace_channel_mentions, replace_user_mentions,
    user_mention_ids, user_mention_label, User,
};

fn user(name: &str, global: Option<&str>, guild: Option<&str>) -> Option<User> {
    Some(User {
        username: name.to_string(),
        global_nickname: global.map(|s| s.to_string()),
        guild_nickname: guild.map(|s| s.to_string()),
    })
}

#[test]
fn finds_mention_ids_in_order() {
    let ids = user_mention_ids("hi <@123> and <@45>, not <@> or <@x> or <#9>");
    assert_eq!(ids, vec!["123".to_string(), "45".to_string()]);
    assert_eq!(channel_mention_ids("<#7><@8><#10"), vec!["7".to_string()]);
}

#[test]
fn unicode_digits_are_digits() {
    assert_eq!(user_mention_ids("<@١٢٣>"), vec!["١٢٣".to_string()]);
}

#[test]
fn labels_prefer_guild_then_global_then_name() {
    assert_eq!(user_mention_label(&user("n", Some("g"), Some("s"))), "s 호출");
    assert_eq!(user_mention_label(&user("n", Some("g"), None)), "g 호출");
    assert_eq!(user_mention_label(&user("n", None, None)), "n 호출");
    assert_eq!(user_mention_label(&None), "모름 호출");
    assert_eq!(channel_mention_label(&Some("일반".to_string())), "일반");
    assert_eq!(channel_mention_label(&None), "채널");
}

#[test]
fn mentions_replaced_by_labels() {
    let text = "<@1> 님, <#2> 에서 <@3> 봐요";
    let users = vec![user("a", None, Some("철수")), None];
    let step = replace_user_mentions(text, &users);
    assert_eq!(step, "철수 호출 님, <#2> 에서 모름 호출 봐요");
    let done = replace_channel_mentions(&step, &vec![Some("공지".to_string())]);
    assert_eq!(done, "철수 호출 님, 공지 에서 모름 호출 봐요");
}

#[test]
fn missing_labels_keep_mentions() {
    assert_eq!(replace_user_mentions("<@1><@2>", &vec![None]), "모름 호출<@2>");
}

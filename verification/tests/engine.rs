//! A configurable behavior used by the integration tests, plus a canvas
//! stub that records what the engine asks it to do.

use std::cell::RefCell;
use std::rc::Rc;

use wasmuri::agent::Agent;
use wasmuri::color::Color;
use wasmuri::component::BehaviorRenderResult;
use wasmuri::component::Component;
use wasmuri::component::ComponentBehavior;
use wasmuri::component::RenderBackend;
use wasmuri::container::Container;
use wasmuri::flat::FlatContainer;
use wasmuri::layer::Layer;
use wasmuri::layer::LayerAgent;
use wasmuri::layered::LayeredContainer;
use wasmuri::params::ClickInfo;
use wasmuri::params::ClipboardData;
use wasmuri::params::KeyInfo;
use wasmuri::phase::StaticRenderPhaseID;
use wasmuri::region::Region;
use wasmuri::render::PassedRenderAction;
use wasmuri::render::RenderOpacity;
use wasmuri::render::RenderTrigger;

/// Draw backend stub: records every clear, phase switch and behavior draw.
pub struct TestCanvas {
    pub log: Rc<RefCell<Vec<String>>>,
}

impl TestCanvas {
    pub fn new() -> TestCanvas {
        TestCanvas { log: Rc::new(RefCell::new(Vec::new())) }
    }

    pub fn take_log(&self) -> Vec<String> {
        self.log.borrow_mut().drain(..).collect()
    }
}

impl RenderBackend for TestCanvas {
    fn clear(&mut self, _color: &Color) {
        self.log.borrow_mut().push("clear".to_string());
    }

    fn begin_phase(&mut self, phase_rank: usize) {
        self.log.borrow_mut().push(format!("phase{}", phase_rank));
    }
}

/// What a test behavior claims at attach time and does when invoked.
#[derive(Clone, Default)]
pub struct Cfg {
    pub label: usize,
    /// Render claim: region, trigger, opacity, phase local name.
    pub render_claim: Option<(Region, RenderTrigger, RenderOpacity, &'static str)>,
    /// When the render claim fails, register a consuming global key
    /// listener so the failure becomes observable from outside.
    pub report_claim_failure: bool,
    pub key_down_region: Option<Region>,
    pub key_down_global: Option<i8>,
    pub click_region: Option<Region>,
    pub click_global: bool,
    pub scroll_region: Option<Region>,
    pub scroll_global: Option<i8>,
    pub move_in_out_region: Option<Region>,
    pub move_area_region: Option<Region>,
    pub update_listener: bool,
    pub copy_global: Option<i8>,
    pub paste_global: Option<i8>,
    pub consume_key: bool,
    pub consume_scroll: bool,
    pub consume_paste: bool,
    pub copy_text: Option<&'static str>,
    pub container_on_key: bool,
    pub container_on_scroll: bool,
    pub container_on_move: bool,
    pub container_on_update: bool,
    pub container_on_click_anywhere: bool,
    pub render_on_click_inside: bool,
    pub remove_on_key: bool,
    pub remove_on_scroll: bool,
}

pub struct Tb {
    pub cfg: Cfg,
}

fn fresh_container() -> Box<Container<Tb>> {
    Box::new(Container::Flat(FlatContainer::new(Layer::new(None))))
}

impl ComponentBehavior for Tb {
    type DrawTarget = TestCanvas;

    fn attach(&mut self, agent: &mut LayerAgent) {
        if let Some((region, trigger, opacity, phase_name)) = self.cfg.render_claim {
            let phase = StaticRenderPhaseID::new("tests", phase_name);
            let outcome = agent.claim_render_space(region, trigger, opacity, &phase);
            if outcome.is_err() && self.cfg.report_claim_failure {
                agent.make_key_down_listener(99);
                self.cfg.consume_key = true;
            }
        }
        if let Some(region) = self.cfg.key_down_region {
            let _ = agent.claim_key_down_space(region);
        }
        if let Some(priority) = self.cfg.key_down_global {
            agent.make_key_down_listener(priority);
        }
        if let Some(region) = self.cfg.click_region {
            let _ = agent.claim_mouse_click_space(region);
        }
        if self.cfg.click_global {
            agent.make_mouse_click_listener();
        }
        if let Some(region) = self.cfg.scroll_region {
            let _ = agent.claim_mouse_scroll_space(region);
        }
        if let Some(priority) = self.cfg.scroll_global {
            agent.make_mouse_scroll_listener(priority);
        }
        if let Some(region) = self.cfg.move_in_out_region {
            agent.claim_mouse_in_out_space(region);
        }
        if let Some(region) = self.cfg.move_area_region {
            agent.claim_mouse_move_space(region);
        }
        if self.cfg.update_listener {
            agent.make_update_listener();
        }
        if let Some(priority) = self.cfg.copy_global {
            agent.make_copy_listener(priority);
        }
        if let Some(priority) = self.cfg.paste_global {
            agent.make_paste_listener(priority);
        }
    }

    fn key_down(&mut self, agent: &mut Agent<Tb>, _keys: &KeyInfo) -> bool {
        if self.cfg.container_on_key {
            agent.change_container(fresh_container());
        }
        if self.cfg.remove_on_key {
            agent.remove_this_component();
        }
        self.cfg.consume_key
    }

    fn mouse_click_inside(
        &mut self,
        agent: &mut Agent<Tb>,
        _mouse_pos: (i32, i32),
        _click: ClickInfo,
    ) {
        if self.cfg.render_on_click_inside {
            agent.request_render();
        }
    }

    fn mouse_click_anywhere(&mut self, agent: &mut Agent<Tb>, _click: ClickInfo) {
        if self.cfg.container_on_click_anywhere {
            agent.change_container(fresh_container());
        }
    }

    fn mouse_move(
        &mut self,
        agent: &mut Agent<Tb>,
        _old_pos: Option<(i32, i32)>,
        _new_pos: Option<(i32, i32)>,
    ) {
        if self.cfg.container_on_move {
            agent.change_container(fresh_container());
        }
    }

    fn mouse_scroll(
        &mut self,
        agent: &mut Agent<Tb>,
        _mouse_pos: Option<(i32, i32)>,
        _delta: i64,
    ) -> bool {
        if self.cfg.container_on_scroll {
            agent.change_container(fresh_container());
        }
        if self.cfg.remove_on_scroll {
            agent.remove_this_component();
        }
        self.cfg.consume_scroll
    }

    fn render(&mut self, _agent: &mut Agent<Tb>, target: &mut TestCanvas) -> BehaviorRenderResult {
        target.log.borrow_mut().push(format!("draw{}", self.cfg.label));
        let actions = match self.cfg.render_claim {
            Some((region, _, _, _)) => vec![PassedRenderAction::new(region)],
            None => Vec::new(),
        };
        BehaviorRenderResult::without_cursor(actions)
    }

    fn update(&mut self, agent: &mut Agent<Tb>) {
        if self.cfg.container_on_update {
            agent.change_container(fresh_container());
        }
    }

    fn on_copy(&mut self, _agent: &mut Agent<Tb>) -> Option<ClipboardData> {
        self.cfg.copy_text.map(|t| ClipboardData::Text(t.to_string()))
    }

    fn on_paste(&mut self, _agent: &mut Agent<Tb>, _clipboard: &ClipboardData) -> bool {
        self.cfg.consume_paste
    }
}

/// A component producing one preconfigured behavior per entry.
pub struct TestComponent {
    pub behaviors: Vec<Cfg>,
}

impl Component for TestComponent {
    type Behavior = Tb;

    fn create_behaviors(&mut self) -> Vec<Tb> {
        std::mem::take(&mut self.behaviors).into_iter().map(|cfg| Tb { cfg }).collect()
    }
}

/// A layer with the test phase names registered, ready for components.
pub fn fresh_layer(background: Option<Color>) -> Layer<Tb> {
    let mut layer: Layer<Tb> = Layer::new(background);
    layer.register_render_phase(&StaticRenderPhaseID::new("tests", "base"));
    layer.register_render_phase(&StaticRenderPhaseID::new("tests", "text"));
    layer
}

pub fn add(layer: &mut Layer<Tb>, cfgs: Vec<Cfg>) {
    layer.add_component(TestComponent { behaviors: cfgs });
}

pub fn key() -> KeyInfo {
    KeyInfo::new("a".to_string(), false, false, false, false)
}

pub fn click() -> ClickInfo {
    ClickInfo::new(0, false, false, false, false)
}

pub fn region(min_x: i32, min_y: i32, max_x: i32, max_y: i32) -> Region {
    Region::new(min_x, min_y, max_x, max_y)
}

fn drained(layer: &mut Layer<Tb>, canvas: &mut TestCanvas) {
    // Render once so that the initial render requests are consumed and the
    // draw log starts clean.
    let _ = layer.on_render(canvas);
    canvas.take_log();
}

#[test]
fn key_claim_exclusivity_rejects_overlap() {
    let mut layer = fresh_layer(None);
    let mut cfg_a = Cfg::default();
    cfg_a.key_down_region = Some(region(0, 0, 100, 100));
    cfg_a.consume_key = false;
    add(&mut layer, vec![cfg_a]);
    // B's region overlaps A's, so its claim must be rejected: with the
    // mouse inside, nobody consumes the key.
    let mut cfg_b = Cfg::default();
    cfg_b.key_down_region = Some(region(50, 50, 150, 150));
    cfg_b.consume_key = true;
    add(&mut layer, vec![cfg_b]);
    let _ = layer.on_mouse_move(Some((60, 60)));
    let (result, _) = layer.on_key_down(&key());
    assert!(!result.is_consumed());
}

#[test]
fn key_claim_disjoint_region_is_accepted() {
    let mut layer = fresh_layer(None);
    let mut cfg_a = Cfg::default();
    cfg_a.key_down_region = Some(region(0, 0, 100, 100));
    add(&mut layer, vec![cfg_a]);
    let mut cfg_b = Cfg::default();
    cfg_b.key_down_region = Some(region(100, 0, 200, 100));
    cfg_b.consume_key = true;
    add(&mut layer, vec![cfg_b]);
    let _ = layer.on_mouse_move(Some((150, 50)));
    let (result, _) = layer.on_key_down(&key());
    assert!(result.is_consumed());
}

#[test]
fn touching_key_claims_are_both_accepted() {
    // Regions sharing an edge do not intersect, so both claims stand.
    let mut layer = fresh_layer(None);
    let mut cfg_a = Cfg::default();
    cfg_a.key_down_region = Some(region(0, 0, 100, 100));
    cfg_a.consume_key = true;
    let mut cfg_b = Cfg::default();
    cfg_b.key_down_region = Some(region(100, 0, 200, 100));
    cfg_b.consume_key = true;
    add(&mut layer, vec![cfg_a]);
    add(&mut layer, vec![cfg_b]);
    let _ = layer.on_mouse_move(Some((150, 50)));
    let (result, _) = layer.on_key_down(&key());
    assert!(result.is_consumed());
}

#[test]
fn consumption_short_circuit_skips_lower_priority() {
    let mut layer = fresh_layer(None);
    let mut high = Cfg::default();
    high.key_down_global = Some(10);
    high.consume_key = true;
    let mut low = Cfg::default();
    low.key_down_global = Some(5);
    low.container_on_key = true;
    add(&mut layer, vec![high]);
    add(&mut layer, vec![low]);
    let (result, _) = layer.on_key_down(&key());
    assert!(result.is_consumed());
    // Had the priority-5 listener been invoked, it would have requested a
    // container change.
    assert!(!result.requested_container_change());
}

#[test]
fn unconsumed_key_reaches_lower_priority() {
    let mut layer = fresh_layer(None);
    let mut high = Cfg::default();
    high.key_down_global = Some(10);
    high.consume_key = false;
    let mut low = Cfg::default();
    low.key_down_global = Some(5);
    low.container_on_key = true;
    add(&mut layer, vec![high]);
    add(&mut layer, vec![low]);
    let (result, _) = layer.on_key_down(&key());
    assert!(result.requested_container_change());
}

#[test]
fn priority_ties_keep_registration_order() {
    let mut layer = fresh_layer(None);
    let mut first = Cfg::default();
    first.key_down_global = Some(5);
    first.consume_key = true;
    let mut second = Cfg::default();
    second.key_down_global = Some(5);
    second.container_on_key = true;
    add(&mut layer, vec![first]);
    add(&mut layer, vec![second]);
    let (result, _) = layer.on_key_down(&key());
    assert!(result.is_consumed());
    assert!(!result.requested_container_change());
}

#[test]
fn hover_listener_outranks_global_listener() {
    let mut layer = fresh_layer(None);
    let mut hover = Cfg::default();
    hover.key_down_region = Some(region(0, 0, 100, 100));
    hover.consume_key = true;
    let mut global = Cfg::default();
    global.key_down_global = Some(100);
    global.container_on_key = true;
    add(&mut layer, vec![hover]);
    add(&mut layer, vec![global]);
    let _ = layer.on_mouse_move(Some((50, 50)));
    let (result, _) = layer.on_key_down(&key());
    assert!(result.is_consumed());
    assert!(!result.requested_container_change());
}

#[test]
fn dead_listener_is_pruned_without_invocation() {
    let mut layer = fresh_layer(None);
    let mut volatile = Cfg::default();
    volatile.key_down_global = Some(10);
    volatile.consume_key = true;
    volatile.remove_on_key = true;
    add(&mut layer, vec![volatile]);
    assert_eq!(layer.behavior_count(), 1);
    let (result, _) = layer.on_key_down(&key());
    assert!(result.is_consumed());
    // The removal was applied after the event.
    assert_eq!(layer.behavior_count(), 0);
    // The next dispatch prunes the dead entry without invoking it and
    // without erroring.
    let (result, _) = layer.on_key_down(&key());
    assert!(!result.is_consumed());
}

#[test]
fn removal_is_deferred_until_event_ends() {
    let mut layer = fresh_layer(None);
    // The region scroll listener asks for removal but does not consume;
    // the global listener after it in scan order must still be invoked
    // during the same event.
    let mut doomed = Cfg::default();
    doomed.scroll_region = Some(region(0, 0, 100, 100));
    doomed.remove_on_scroll = true;
    let mut witness = Cfg::default();
    witness.scroll_global = Some(0);
    witness.container_on_scroll = true;
    add(&mut layer, vec![doomed]);
    add(&mut layer, vec![witness]);
    let _ = layer.on_mouse_move(Some((50, 50)));
    assert_eq!(layer.behavior_count(), 2);
    let (result, _) = layer.on_mouse_scroll(3);
    // The witness ran during the same scan, so the event carries its
    // container request; the doomed behavior is gone afterwards.
    assert!(result.requested_container_change());
    assert_eq!(layer.behavior_count(), 1);
}

#[test]
fn click_is_not_consumable() {
    let mut layer = fresh_layer(None);
    let mut global = Cfg::default();
    global.click_global = true;
    global.container_on_click_anywhere = true;
    let mut regional = Cfg::default();
    regional.click_region = Some(region(0, 0, 1000, 1000));
    regional.render_on_click_inside = true;
    regional.render_claim = Some((
        region(0, 0, 1000, 1000),
        RenderTrigger::Request,
        RenderOpacity::Solid,
        "base",
    ));
    add(&mut layer, vec![regional]);
    add(&mut layer, vec![global]);
    let mut canvas = TestCanvas::new();
    let _ = layer.on_mouse_move(Some((500, 500)));
    drained(&mut layer, &mut canvas);
    assert_eq!(layer.predict_render().len(), 0);
    // Both the region listener and the global listener fire for one click.
    let (result, _) = layer.on_mouse_click(click());
    assert!(result.is_some());
    let predicted = layer.predict_render();
    assert_eq!(predicted.len(), 1);
    assert_eq!(predicted[0].get_region(), region(0, 0, 1000, 1000));
}

#[test]
fn predict_render_reports_background_and_claims() {
    let mut layer = fresh_layer(Some(Color::new(0, 0, 0, 255)));
    let mut solid = Cfg::default();
    solid.render_claim = Some((
        region(0, 0, 500, 500),
        RenderTrigger::Request,
        RenderOpacity::Solid,
        "base",
    ));
    add(&mut layer, vec![solid]);
    let predicted = layer.predict_render();
    assert_eq!(predicted.len(), 2);
    assert_eq!(predicted[0].get_region(), Region::entire_viewport());
    assert_eq!(predicted[0].get_opacity(), RenderOpacity::Solid);
    assert_eq!(predicted[1].get_region(), region(0, 0, 500, 500));
    assert_eq!(predicted[1].get_opacity(), RenderOpacity::Solid);
    // After a forced full render everything is marked dirty again.
    layer.force_render();
    let predicted = layer.predict_render();
    assert_eq!(predicted.len(), 2);
    assert_eq!(predicted[0].get_region(), Region::entire_viewport());
    assert_eq!(predicted[1].get_region(), region(0, 0, 500, 500));
}

#[test]
fn translucent_background_predicts_mixed() {
    let mut layer: Layer<Tb> = fresh_layer(Some(Color::new(0, 0, 0, 128)));
    let predicted = layer.predict_render();
    assert_eq!(predicted.len(), 1);
    assert_eq!(predicted[0].get_opacity(), RenderOpacity::Mixed);
}

#[test]
fn force_partial_render_is_idempotent() {
    let mut layer = fresh_layer(None);
    let mut claim = Cfg::default();
    claim.render_claim = Some((
        region(0, 0, 500, 500),
        RenderTrigger::Request,
        RenderOpacity::Solid,
        "base",
    ));
    add(&mut layer, vec![claim]);
    let mut canvas = TestCanvas::new();
    drained(&mut layer, &mut canvas);
    let forced = layer.force_partial_render(&vec![region(100, 100, 200, 200)]);
    assert_eq!(forced.len(), 1);
    assert_eq!(forced[0].get_region(), region(0, 0, 500, 500));
    // Running the same propagation step again forces nothing new.
    let forced_again = layer.force_partial_render(&vec![region(100, 100, 200, 200)]);
    assert_eq!(forced_again.len(), 0);
}

#[test]
fn force_partial_render_misses_disjoint_claims() {
    let mut layer = fresh_layer(None);
    let mut claim = Cfg::default();
    claim.render_claim = Some((
        region(0, 0, 100, 100),
        RenderTrigger::Request,
        RenderOpacity::Solid,
        "base",
    ));
    add(&mut layer, vec![claim]);
    let mut canvas = TestCanvas::new();
    drained(&mut layer, &mut canvas);
    let forced = layer.force_partial_render(&vec![region(500, 500, 600, 600)]);
    assert_eq!(forced.len(), 0);
}

#[test]
fn mixed_redraw_propagates_backward() {
    // Back layer: a solid claim that only redraws on request.  Front
    // layer: a mixed claim redrawn on every mouse move.  A mixed redraw
    // in front must force the overlapping back claim to redraw too.
    let mut back = fresh_layer(None);
    let mut back_cfg = Cfg::default();
    back_cfg.label = 1;
    back_cfg.render_claim = Some((
        region(0, 0, 500, 500),
        RenderTrigger::Request,
        RenderOpacity::Solid,
        "base",
    ));
    add(&mut back, vec![back_cfg]);
    let mut front = fresh_layer(None);
    let mut front_cfg = Cfg::default();
    front_cfg.label = 2;
    front_cfg.render_claim = Some((
        region(0, 0, 500, 500),
        RenderTrigger::MouseMove,
        RenderOpacity::Mixed,
        "base",
    ));
    add(&mut front, vec![front_cfg]);
    let mut stack = LayeredContainer::new(vec![back, front]);
    let mut canvas = TestCanvas::new();
    let _ = stack.render(&mut canvas);
    canvas.take_log();
    let _ = stack.on_mouse_move(Some((50, 50)));
    let _ = stack.render(&mut canvas);
    let log = canvas.take_log();
    assert!(log.contains(&"draw2".to_string()));
    assert!(log.contains(&"draw1".to_string()));
}

#[test]
fn solid_redraw_does_not_propagate_backward() {
    let mut back = fresh_layer(None);
    let mut back_cfg = Cfg::default();
    back_cfg.label = 1;
    back_cfg.render_claim = Some((
        region(0, 0, 500, 500),
        RenderTrigger::Request,
        RenderOpacity::Solid,
        "base",
    ));
    add(&mut back, vec![back_cfg]);
    let mut front = fresh_layer(None);
    let mut front_cfg = Cfg::default();
    front_cfg.label = 2;
    front_cfg.render_claim = Some((
        region(0, 0, 500, 500),
        RenderTrigger::MouseMove,
        RenderOpacity::Solid,
        "base",
    ));
    add(&mut front, vec![front_cfg]);
    let mut stack = LayeredContainer::new(vec![back, front]);
    let mut canvas = TestCanvas::new();
    let _ = stack.render(&mut canvas);
    canvas.take_log();
    let _ = stack.on_mouse_move(Some((50, 50)));
    let _ = stack.render(&mut canvas);
    let log = canvas.take_log();
    assert!(log.contains(&"draw2".to_string()));
    assert!(!log.contains(&"draw1".to_string()));
}

#[test]
fn dirty_back_layer_forces_front_layer() {
    let mut back = fresh_layer(None);
    let mut back_cfg = Cfg::default();
    back_cfg.label = 1;
    back_cfg.render_claim = Some((
        region(0, 0, 500, 500),
        RenderTrigger::MouseMove,
        RenderOpacity::Solid,
        "base",
    ));
    add(&mut back, vec![back_cfg]);
    let mut front = fresh_layer(None);
    let mut front_cfg = Cfg::default();
    front_cfg.label = 2;
    front_cfg.render_claim = Some((
        region(0, 0, 500, 500),
        RenderTrigger::Request,
        RenderOpacity::Solid,
        "base",
    ));
    add(&mut front, vec![front_cfg]);
    let mut stack = LayeredContainer::new(vec![back, front]);
    let mut canvas = TestCanvas::new();
    let _ = stack.render(&mut canvas);
    canvas.take_log();
    let _ = stack.on_mouse_move(Some((50, 50)));
    let _ = stack.render(&mut canvas);
    let log = canvas.take_log();
    assert!(log.contains(&"draw1".to_string()));
    assert!(log.contains(&"draw2".to_string()));
}

#[test]
fn render_phases_run_in_registration_order() {
    let mut layer = fresh_layer(None);
    let mut late = Cfg::default();
    late.label = 9;
    late.render_claim = Some((
        region(0, 0, 100, 100),
        RenderTrigger::Request,
        RenderOpacity::Solid,
        "text",
    ));
    let mut early = Cfg::default();
    early.label = 3;
    early.render_claim = Some((
        region(200, 200, 300, 300),
        RenderTrigger::Request,
        RenderOpacity::Solid,
        "base",
    ));
    // Attached in the opposite order of their phases.
    add(&mut layer, vec![late]);
    add(&mut layer, vec![early]);
    let mut canvas = TestCanvas::new();
    let _ = layer.on_render(&mut canvas);
    let log = canvas.take_log();
    assert_eq!(log, vec!["phase0", "draw3", "phase1", "draw9"]);
}

#[test]
fn unregistered_render_phase_is_refused() {
    let mut layer = fresh_layer(None);
    let mut cfg = Cfg::default();
    cfg.render_claim = Some((
        region(0, 0, 100, 100),
        RenderTrigger::Request,
        RenderOpacity::Solid,
        "nonexistent",
    ));
    cfg.report_claim_failure = true;
    add(&mut layer, vec![cfg]);
    // The claim failed, so the behavior registered its fallback listener.
    let (result, _) = layer.on_key_down(&key());
    assert!(result.is_consumed());
}

#[test]
fn overlapping_render_claim_is_refused() {
    let mut layer = fresh_layer(None);
    let mut first = Cfg::default();
    first.render_claim = Some((
        region(0, 0, 100, 100),
        RenderTrigger::Request,
        RenderOpacity::Solid,
        "base",
    ));
    add(&mut layer, vec![first]);
    let mut second = Cfg::default();
    second.render_claim = Some((
        region(50, 50, 150, 150),
        RenderTrigger::Request,
        RenderOpacity::Solid,
        "base",
    ));
    second.report_claim_failure = true;
    add(&mut layer, vec![second]);
    let (result, _) = layer.on_key_down(&key());
    assert!(result.is_consumed());
}

#[test]
fn in_out_move_listener_fires_on_boundary_crossing() {
    let mut layer = fresh_layer(None);
    let mut cfg = Cfg::default();
    cfg.move_in_out_region = Some(region(0, 0, 100, 100));
    cfg.container_on_move = true;
    add(&mut layer, vec![cfg]);
    // A move entirely outside the region does not fire it.
    let (result, _) = layer.on_mouse_move(Some((500, 500)));
    assert!(!result.requested_container_change());
    // A move crossing into the region fires it.
    let (result, _) = layer.on_mouse_move(Some((50, 50)));
    assert!(result.requested_container_change());
}

#[test]
fn area_move_listener_fires_while_inside() {
    let mut layer = fresh_layer(None);
    let mut cfg = Cfg::default();
    cfg.move_area_region = Some(region(0, 0, 100, 100));
    cfg.container_on_move = true;
    add(&mut layer, vec![cfg]);
    let (result, _) = layer.on_mouse_move(Some((500, 500)));
    assert!(!result.requested_container_change());
    let (result, _) = layer.on_mouse_move(Some((50, 50)));
    assert!(result.requested_container_change());
    // Moving within the region keeps firing it.
    let (result, _) = layer.on_mouse_move(Some((60, 60)));
    assert!(result.requested_container_change());
}

#[test]
fn update_listener_receives_frame_ticks() {
    let mut layer = fresh_layer(None);
    let mut cfg = Cfg::default();
    cfg.update_listener = true;
    cfg.container_on_update = true;
    add(&mut layer, vec![cfg]);
    let (result, _) = layer.on_update();
    assert!(result.is_some());
}

#[test]
fn copy_prefers_higher_priority_listener() {
    let mut layer = fresh_layer(None);
    let mut low = Cfg::default();
    low.copy_global = Some(3);
    low.copy_text = Some("low");
    let mut high = Cfg::default();
    high.copy_global = Some(7);
    high.copy_text = Some("high");
    add(&mut layer, vec![low]);
    add(&mut layer, vec![high]);
    let (data, _, _) = layer.on_copy();
    assert_eq!(data, Some(ClipboardData::Text("high".to_string())));
}

#[test]
fn paste_stops_at_first_consumer() {
    let mut layer = fresh_layer(None);
    let mut consumer = Cfg::default();
    consumer.paste_global = Some(5);
    consumer.consume_paste = true;
    add(&mut layer, vec![consumer]);
    let (consumed, _) = layer.on_paste(&ClipboardData::Text("x".to_string()));
    assert!(consumed);
    let mut empty_layer: Layer<Tb> = fresh_layer(None);
    let (consumed, _) = empty_layer.on_paste(&ClipboardData::Text("x".to_string()));
    assert!(!consumed);
}

#[test]
fn flat_container_routes_events() {
    let mut layer = fresh_layer(None);
    let mut cfg = Cfg::default();
    cfg.key_down_global = Some(0);
    cfg.container_on_key = true;
    add(&mut layer, vec![cfg]);
    let mut flat = FlatContainer::new(layer);
    let (result, _) = flat.on_key_down(&key());
    assert!(result.is_some());
}

#[test]
fn layered_key_dispatch_is_front_to_back() {
    let mut back = fresh_layer(None);
    let mut back_cfg = Cfg::default();
    back_cfg.key_down_global = Some(0);
    back_cfg.container_on_key = true;
    add(&mut back, vec![back_cfg]);
    let mut front = fresh_layer(None);
    let mut front_cfg = Cfg::default();
    front_cfg.key_down_global = Some(0);
    front_cfg.consume_key = true;
    add(&mut front, vec![front_cfg]);
    let mut stack = LayeredContainer::new(vec![back, front]);
    // The front layer consumes the key, so the back layer never sees it.
    let (result, _) = stack.on_key_down(&key());
    assert!(result.is_none());
}

#[test]
fn partial_force_covered_by_solids_spares_the_background() {
    let mut layer = fresh_layer(Some(Color::new(0, 0, 0, 255)));
    let mut solid = Cfg::default();
    solid.render_claim = Some((
        region(0, 0, 500, 500),
        RenderTrigger::Request,
        RenderOpacity::Solid,
        "base",
    ));
    add(&mut layer, vec![solid]);
    let mut canvas = TestCanvas::new();
    drained(&mut layer, &mut canvas);
    // The forced region is fully hidden behind the solid claim, so the
    // background need not repaint: only the claim is newly dirty.
    let _ = layer.force_partial_render(&vec![region(100, 100, 200, 200)]);
    let predicted = layer.predict_render();
    assert_eq!(predicted.len(), 1);
    assert_eq!(predicted[0].get_region(), region(0, 0, 500, 500));
}

#[test]
fn partial_force_outside_solids_repaints_everything() {
    let mut layer = fresh_layer(Some(Color::new(0, 0, 0, 255)));
    let mut solid = Cfg::default();
    solid.render_claim = Some((
        region(0, 0, 500, 500),
        RenderTrigger::Request,
        RenderOpacity::Solid,
        "base",
    ));
    add(&mut layer, vec![solid]);
    let mut canvas = TestCanvas::new();
    drained(&mut layer, &mut canvas);
    // Part of the forced region shows the background, which cannot be
    // partially repainted: the whole layer is forced instead.
    let _ = layer.force_partial_render(&vec![region(400, 400, 600, 600)]);
    let predicted = layer.predict_render();
    assert_eq!(predicted.len(), 2);
    assert_eq!(predicted[0].get_region(), Region::entire_viewport());
    assert_eq!(predicted[1].get_region(), region(0, 0, 500, 500));
    // Everything is dirty now, so repeating the force yields nothing new.
    let forced_again = layer.force_partial_render(&vec![region(400, 400, 600, 600)]);
    assert_eq!(forced_again.len(), 0);
}

#[test]
fn mouse_move_consumed_only_over_drawn_content() {
    let mut layer = fresh_layer(None);
    let mut claim = Cfg::default();
    claim.render_claim = Some((
        region(0, 0, 500, 500),
        RenderTrigger::Request,
        RenderOpacity::Solid,
        "base",
    ));
    add(&mut layer, vec![claim]);
    let mut canvas = TestCanvas::new();
    drained(&mut layer, &mut canvas);
    // Over the region this layer drew last frame, the move is consumed.
    let (result, _) = layer.on_mouse_move(Some((100, 100)));
    assert!(result.is_consumed());
    // Next to it, layers behind would still see the move.
    let (result, _) = layer.on_mouse_move(Some((700, 700)));
    assert!(!result.is_consumed());
    // An unknown position is over nothing.
    let (result, _) = layer.on_mouse_move(None);
    assert!(!result.is_consumed());
}

# hrdf_routing_engine

Reading of HRDF timetable files (the Swiss public transport timetable format) and a
journey planner over the loaded timetable, written in Verus: every function of the
library states what it computes in its contract, and Verus proves it.

Layout:

- `src/text.rs`: splitting, trimming, character removal and integer reading over
  characters, each specified over `Seq<char>`.
- `src/text_map.rs`: a map from text to text (names by language, platform entries).
- `src/models.rs`: dates, times, stops, platforms, holidays, journeys.
- `src/parsing/`: the fixed-width column reader and the row parsers of the holiday
  (FEIERTAG), stop (BAHNHOF, BFKOORD_*) and platform (GLEIS, GLEIS_LV95) files, with
  the indexes built from them.
- `src/storage.rs`: the loaded stops and journeys, found by number.
- `src/routing.rs`: next departures, route sections, and following a journey to the
  next stop where a change is possible.
- `src/planning.rs`: the shortest-route planner: of the routes that board at or after
  the departure time on the day of departure or the day after, change journey only
  where a change is possible and at most `MAX_CONNECTIONS` times, and pass no stop
  twice, one that arrives earliest.
- `src/service.rs`: the checks made on an isochrone request.
- `app/`: reading the files from disk, printing a planned route, and the web service.
- `tests/`: tests of the library on concrete values.
